use vstd::prelude::*;
use crate::command::{
    all_cands, command_score, dedup_ids, fields_of, filter_spec, insert_ranked, item_cands, lemma_insert_at, promote_all,
    numbered, promoted, query_terms_spec, ranked_lt, score_lt, scored_list, sort_ranked,
    CommandView, Ranked,
};
use crate::context::{
    back_or_close_spec, close_spec, enter_spec, open_spec, pop_to_spec, register_all, register_spec, remove_id,
    remove_ids, toggle_spec, PaletteView,
};
use crate::shortcut::{key_code, shortcut_matches, KeyStroke, Modifier, ShortcutView};
use crate::component::{first_shortcut_match, global_key_spec, input_key_spec, GlobalKeyAction, InputKeyAction};
use crate::text::ascii_lower_seq;
use crate::search::{
    count_after, fallback_score, chain_key, full_chain, is_min_key, key_le, Key4, has_full_chain, inversions, occs_for, score_of, score_spec, some_non_parent,
    some_term_unmatched, term_occs, FieldSpec, Occ, ScoreSpec,
};

verus! {

// ---------------------------------------------------------------------------
// Facts about ranking, deduplication and the candidates of a search
// ---------------------------------------------------------------------------

pub open spec fn sorted_by_rank(s: Seq<Ranked>) -> bool {
    forall|a: int, b: int| 0 <= a < b < s.len() ==> !ranked_lt(#[trigger] s[b], #[trigger] s[a])
}

proof fn lemma_ranked_lt_trans(x: Ranked, y: Ranked, z: Ranked)
    requires
        ranked_lt(x, y),
        ranked_lt(y, z),
    ensures
        ranked_lt(x, z),
{
}

proof fn lemma_ranked_lt_asym(x: Ranked, y: Ranked)
    requires
        ranked_lt(x, y),
    ensures
        !ranked_lt(y, x),
{
}

/// Position at which `insert_ranked` places `x`.
pub open spec fn insert_pos(s: Seq<Ranked>, x: Ranked) -> int
    decreases s.len(),
{
    if s.len() == 0 {
        0
    } else if ranked_lt(x, s[0]) {
        0
    } else {
        1 + insert_pos(s.drop_first(), x)
    }
}

proof fn lemma_insert_pos(s: Seq<Ranked>, x: Ranked)
    ensures
        0 <= insert_pos(s, x) <= s.len(),
        forall|i: int| 0 <= i < insert_pos(s, x) ==> !ranked_lt(x, #[trigger] s[i]),
        insert_pos(s, x) < s.len() ==> ranked_lt(x, s[insert_pos(s, x)]),
        insert_ranked(s, x) == s.insert(insert_pos(s, x), x),
    decreases s.len(),
{
    if s.len() > 0 && !ranked_lt(x, s[0]) {
        let t = s.drop_first();
        lemma_insert_pos(t, x);
        assert forall|i: int| 0 <= i < insert_pos(s, x) implies !ranked_lt(x, #[trigger] s[i]) by {
            if i > 0 {
                assert(s[i] == t[i - 1]);
            }
        }
        if insert_pos(s, x) < s.len() {
            assert(s[insert_pos(s, x)] == t[insert_pos(t, x)]);
        }
    }
    lemma_insert_at(s, x, insert_pos(s, x));
}

proof fn lemma_insert_sorted(s: Seq<Ranked>, x: Ranked)
    requires
        sorted_by_rank(s),
    ensures
        sorted_by_rank(insert_ranked(s, x)),
        insert_ranked(s, x).len() == s.len() + 1,
        forall|k: int| 0 <= k < insert_ranked(s, x).len() ==> #[trigger] insert_ranked(s, x)[k] == x || s.contains(insert_ranked(s, x)[k]),
{
    lemma_insert_pos(s, x);
    let k = insert_pos(s, x);
    let u = s.insert(k, x);
    assert forall|a: int, b: int| 0 <= a < b < u.len() implies !ranked_lt(#[trigger] u[b], #[trigger] u[a]) by {
        if b < k {
            assert(u[a] == s[a] && u[b] == s[b]);
        } else if b == k {
            assert(u[a] == s[a] && u[b] == x);
        } else if a < k {
            assert(u[a] == s[a] && u[b] == s[b - 1]);
        } else if a == k {
            assert(u[a] == x && u[b] == s[b - 1]);
            if b - 1 == k {
                lemma_ranked_lt_asym(x, s[k]);
            } else {
                assert(!ranked_lt(s[b - 1], s[k]));
                if ranked_lt(s[b - 1], x) {
                    lemma_ranked_lt_trans(s[b - 1], x, s[k]);
                }
            }
        } else {
            assert(u[a] == s[a - 1] && u[b] == s[b - 1]);
        }
    }
    assert forall|q: int| 0 <= q < u.len() implies #[trigger] u[q] == x || s.contains(u[q]) by {
        if q < k {
            assert(u[q] == s[q]);
        } else if q > k {
            assert(u[q] == s[q - 1]);
        }
    }
}

/// Sorting puts the entries in ranking order and keeps the entries it was given.
pub proof fn lemma_sort_ranked(s: Seq<Ranked>)
    ensures
        sorted_by_rank(sort_ranked(s)),
        sort_ranked(s).len() == s.len(),
        forall|k: int| 0 <= k < sort_ranked(s).len() ==> s.contains(#[trigger] sort_ranked(s)[k]),
    decreases s.len(),
{
    if s.len() > 0 {
        let p = s.drop_last();
        lemma_sort_ranked(p);
        lemma_insert_sorted(sort_ranked(p), s.last());
        assert forall|k: int| 0 <= k < sort_ranked(s).len() implies s.contains(#[trigger] sort_ranked(s)[k]) by {
            let e = sort_ranked(s)[k];
            if e == s.last() {
                assert(s[s.len() - 1] == e);
            } else {
                assert(sort_ranked(p).contains(e));
                let q = choose|q: int| 0 <= q < sort_ranked(p).len() && sort_ranked(p)[q] == e;
                assert(p.contains(e));
                let j = choose|j: int| 0 <= j < p.len() && p[j] == e;
                assert(s[j] == e);
            }
        }
    }
}

/// What `dedup_ids` keeps: the entries at increasing positions `idx`, no two
/// with the same id.
pub proof fn lemma_dedup_ids(s: Seq<Ranked>) -> (idx: Seq<int>)
    ensures
        idx.len() == dedup_ids(s).len(),
        forall|k: int| 0 <= k < idx.len() ==> 0 <= #[trigger] idx[k] < s.len() && dedup_ids(s)[k] == s[idx[k]].cmd,
        forall|a: int, b: int| 0 <= a < b < idx.len() ==> #[trigger] idx[a] < #[trigger] idx[b],
        forall|a: int, b: int| 0 <= a < b < idx.len() ==> (#[trigger] dedup_ids(s)[a]).id != (#[trigger] dedup_ids(s)[b]).id,
    decreases s.len(),
{
    if s.len() == 0 {
        seq![]
    } else {
        let p = s.drop_last();
        let pidx = lemma_dedup_ids(p);
        assert forall|k: int| 0 <= k < pidx.len() implies p[pidx[k]] == s[pidx[k]] by {}
        if exists|j: int| 0 <= j < s.len() - 1 && #[trigger] s[j].cmd.id == s.last().cmd.id {
            pidx
        } else {
            let idx = pidx.push(s.len() - 1);
            let d = dedup_ids(s);
            assert(d == dedup_ids(p).push(s.last().cmd));
            assert forall|a: int, b: int| 0 <= a < b < idx.len() implies (#[trigger] d[a]).id != (#[trigger] d[b]).id by {
                if b == idx.len() - 1 {
                    assert(d[a] == s[pidx[a]].cmd);
                    assert(pidx[a] < s.len() - 1);
                    if d[a].id == d[b].id {
                        assert(s[pidx[a]].cmd.id == s.last().cmd.id);
                    }
                } else {
                    assert(d[a] == dedup_ids(p)[a] && d[b] == dedup_ids(p)[b]);
                }
            }
            assert forall|k: int| 0 <= k < idx.len() implies 0 <= #[trigger] idx[k] < s.len() && d[k] == s[idx[k]].cmd by {
                if k < pidx.len() {
                    assert(d[k] == dedup_ids(p)[k]);
                }
            }
            assert forall|a: int, b: int| 0 <= a < b < idx.len() implies #[trigger] idx[a] < #[trigger] idx[b] by {
                if b < pidx.len() {
                } else {
                    assert(pidx[a] < p.len());
                }
            }
            idx
        }
    }
}

/// `v` is one of `items`, or a child of a branch among `items` whose children
/// are searchable, promoted under the branch's name.
pub open spec fn from_items(items: Seq<CommandView>, kids: Seq<Seq<CommandView>>, v: CommandView) -> bool {
    ||| items.contains(v)
    ||| exists|i: int, j: int|
        0 <= i < items.len() && items[i].search_children && items[i].children is Some && 0 <= j
            < kids[i].len() && v == #[trigger] promoted(kids[i][j], items[i].name)
}

proof fn lemma_scored_list(cs: Seq<CommandView>, terms: Seq<Seq<char>>)
    ensures
        forall|k: int| 0 <= k < scored_list(cs, terms).len() ==> command_score(
            (#[trigger] scored_list(cs, terms)[k]).1,
            terms,
        ) == Some(scored_list(cs, terms)[k].0) && cs.contains(scored_list(cs, terms)[k].1),
    decreases cs.len(),
{
    if cs.len() > 0 {
        let p = cs.drop_last();
        lemma_scored_list(p, terms);
        assert forall|k: int| 0 <= k < scored_list(cs, terms).len() implies command_score(
            (#[trigger] scored_list(cs, terms)[k]).1,
            terms,
        ) == Some(scored_list(cs, terms)[k].0) && cs.contains(scored_list(cs, terms)[k].1) by {
            let e = scored_list(cs, terms)[k];
            if k < scored_list(p, terms).len() {
                assert(e == scored_list(p, terms)[k]);
                let j = choose|j: int| 0 <= j < p.len() && p[j] == e.1;
                assert(cs[j] == e.1);
            } else {
                assert(cs[cs.len() - 1] == e.1);
            }
        }
    }
}

/// Every candidate of a search matches, with the score it is ranked by, and
/// comes from the items.
pub proof fn lemma_all_cands(items: Seq<CommandView>, kids: Seq<Seq<CommandView>>, terms: Seq<Seq<char>>)
    requires
        kids.len() >= items.len(),
    ensures
        forall|k: int| 0 <= k < all_cands(items, kids, terms).len() ==> command_score(
            (#[trigger] all_cands(items, kids, terms)[k]).1,
            terms,
        ) == Some(all_cands(items, kids, terms)[k].0) && from_items(items, kids, all_cands(items, kids, terms)[k].1),
    decreases items.len(),
{
    if items.len() > 0 {
        let p = items.drop_last();
        let n = items.len() - 1;
        let v = items.last();
        lemma_all_cands(p, kids, terms);
        lemma_scored_list(seq![v], terms);
        let pk = crate::command::promote_all(kids[n], v.name);
        lemma_scored_list(pk, terms);
        let ac = all_cands(items, kids, terms);
        let pc = all_cands(p, kids, terms);
        let own = scored_list(seq![v], terms);
        let rest = if v.search_children && v.children is Some {
            scored_list(pk, terms)
        } else {
            Seq::<(ScoreSpec, CommandView)>::empty()
        };
        assert(ac == pc + (own + rest));
        assert forall|k: int| 0 <= k < ac.len() implies command_score((#[trigger] ac[k]).1, terms) == Some(ac[k].0)
            && from_items(items, kids, ac[k].1) by {
            let e = ac[k];
            if k < pc.len() {
                assert(e == pc[k]);
                lemma_from_items_prefix(items, kids, e.1);
            } else if k < pc.len() + own.len() {
                assert(e == own[k - pc.len()]);
                assert(seq![v].contains(e.1));
                assert(items[n] == v);
            } else {
                let q = k - pc.len() - own.len();
                assert(e == rest[q]);
                assert(pk.contains(e.1));
                let j = choose|j: int| 0 <= j < pk.len() && pk[j] == e.1;
                assert(e.1 == promoted(kids[n][j], items[n].name));
            }
        }
    }
}

proof fn lemma_from_items_prefix(items: Seq<CommandView>, kids: Seq<Seq<CommandView>>, v: CommandView)
    requires
        items.len() > 0,
        from_items(items.drop_last(), kids, v),
    ensures
        from_items(items, kids, v),
{
    let p = items.drop_last();
    if p.contains(v) {
        let j = choose|j: int| 0 <= j < p.len() && p[j] == v;
        assert(items[j] == v);
    } else {
        let (i, j) = choose|i: int, j: int|
            0 <= i < p.len() && p[i].search_children && p[i].children is Some && 0 <= j < kids[i].len()
                && v == #[trigger] promoted(kids[i][j], p[i].name);
        assert(items[i] == p[i]);
    }
}

/// Entry `k` of a search's result, with the sorted entry it was kept from.
proof fn lemma_result_entry(items: Seq<CommandView>, kids: Seq<Seq<CommandView>>, query: Seq<char>) -> (idx: Seq<int>)
    requires
        kids.len() == items.len(),
        query_terms_spec(query).len() > 0,
    ensures
        ({
            let terms = query_terms_spec(query);
            let sorted = sort_ranked(numbered(all_cands(items, kids, terms)));
            let r = filter_spec(items, kids, query);
            &&& r == dedup_ids(sorted)
            &&& idx.len() == r.len()
            &&& sorted_by_rank(sorted)
            &&& forall|a: int, b: int| 0 <= a < b < idx.len() ==> #[trigger] idx[a] < #[trigger] idx[b]
            &&& forall|a: int, b: int| 0 <= a < b < r.len() ==> (#[trigger] r[a]).id != (#[trigger] r[b]).id
            &&& forall|k: int| 0 <= k < r.len() ==> {
                &&& 0 <= #[trigger] idx[k] < sorted.len()
                &&& r[k] == sorted[idx[k]].cmd
                &&& command_score(r[k], terms) == Some(sorted[idx[k]].score)
                &&& from_items(items, kids, r[k])
            }
        }),
{
    let terms = query_terms_spec(query);
    let cands = all_cands(items, kids, terms);
    let nb = numbered(cands);
    let sorted = sort_ranked(nb);
    lemma_sort_ranked(nb);
    lemma_all_cands(items, kids, terms);
    let idx = lemma_dedup_ids(sorted);
    let r = filter_spec(items, kids, query);
    assert forall|k: int| 0 <= k < r.len() implies {
        &&& 0 <= #[trigger] idx[k] < sorted.len()
        &&& r[k] == sorted[idx[k]].cmd
        &&& command_score(r[k], terms) == Some(sorted[idx[k]].score)
        &&& from_items(items, kids, r[k])
    } by {
        let e = sorted[idx[k]];
        assert(nb.contains(e));
        let j = choose|j: int| 0 <= j < nb.len() && nb[j] == e;
        assert(nb[j] == Ranked { score: cands[j].0, ordinal: j, cmd: cands[j].1 });
        assert(command_score(cands[j].1, terms) == Some(cands[j].0));
    }
    idx
}

/// Every command a non-empty query returns matches each query term somewhere
/// in its searchable fields (name, description, badges, group, or the
/// submenu it was promoted from).
pub proof fn law_every_term_required(items: Seq<CommandView>, kids: Seq<Seq<CommandView>>, query: Seq<char>)
    requires
        kids.len() == items.len(),
        query_terms_spec(query).len() > 0,
    ensures
        forall|k: int, t: int|
            0 <= k < filter_spec(items, kids, query).len() && 0 <= t < query_terms_spec(query).len() ==> term_occs(
                fields_of(#[trigger] filter_spec(items, kids, query)[k]),
                #[trigger] query_terms_spec(query)[t],
            ).len() > 0,
{
    let terms = query_terms_spec(query);
    let r = filter_spec(items, kids, query);
    let idx = lemma_result_entry(items, kids, query);
    assert forall|k: int, t: int| 0 <= k < r.len() && 0 <= t < terms.len() implies term_occs(
        fields_of(#[trigger] r[k]),
        #[trigger] terms[t],
    ).len() > 0 by {
        assert(0 <= idx[k]);
        let occs = occs_for(fields_of(r[k]), terms);
        assert(score_of(occs, r[k].search_parent is Some) is Some);
        assert(!some_term_unmatched(occs));
        assert(occs[t] == term_occs(fields_of(r[k]), terms[t]));
    }
}

/// A non-empty query returns at most one command per id.
pub proof fn law_results_unique_by_id(items: Seq<CommandView>, kids: Seq<Seq<CommandView>>, query: Seq<char>)
    requires
        kids.len() == items.len(),
        query_terms_spec(query).len() > 0,
    ensures
        forall|a: int, b: int|
            0 <= a < b < filter_spec(items, kids, query).len() ==> (#[trigger] filter_spec(items, kids, query)[a]).id
                != (#[trigger] filter_spec(items, kids, query)[b]).id,
{
    let _ = lemma_result_entry(items, kids, query);
}

/// Every command a non-empty query returns is one of the items, or a child of
/// an item that is a branch with searchable children, shown under that
/// branch's name. In particular the children of a branch that did not opt in
/// never appear.
pub proof fn law_results_come_from_items(items: Seq<CommandView>, kids: Seq<Seq<CommandView>>, query: Seq<char>)
    requires
        kids.len() == items.len(),
        query_terms_spec(query).len() > 0,
    ensures
        forall|k: int| 0 <= k < filter_spec(items, kids, query).len() ==> from_items(items, kids, #[trigger] filter_spec(items, kids, query)[k]),
{
    let idx = lemma_result_entry(items, kids, query);
    assert forall|k: int| 0 <= k < filter_spec(items, kids, query).len() implies from_items(items, kids, #[trigger] filter_spec(items, kids, query)[k]) by {
        assert(0 <= idx[k]);
    }
}

/// A child promoted into the results matched somewhere besides its submenu's
/// title: matching only the title keeps the submenu itself as the result.
pub proof fn law_promoted_results_match_beyond_title(items: Seq<CommandView>, kids: Seq<Seq<CommandView>>, query: Seq<char>)
    requires
        kids.len() == items.len(),
        query_terms_spec(query).len() > 0,
    ensures
        forall|k: int|
            0 <= k < filter_spec(items, kids, query).len() && (#[trigger] filter_spec(items, kids, query)[k]).search_parent is Some
                ==> some_non_parent(occs_for(fields_of(filter_spec(items, kids, query)[k]), query_terms_spec(query))),
{
    let idx = lemma_result_entry(items, kids, query);
    let terms = query_terms_spec(query);
    let r = filter_spec(items, kids, query);
    assert forall|k: int| 0 <= k < r.len() && (#[trigger] r[k]).search_parent is Some implies some_non_parent(
        occs_for(fields_of(r[k]), terms),
    ) by {
        assert(0 <= idx[k]);
        let occs = occs_for(fields_of(r[k]), terms);
        assert(score_of(occs, true) is Some);
    }
}

/// The results of a non-empty query come best first: no result has a
/// better score than one listed before it. In particular matches in query
/// order (order penalty 0) come before all others.
pub proof fn law_results_best_first(items: Seq<CommandView>, kids: Seq<Seq<CommandView>>, query: Seq<char>)
    requires
        kids.len() == items.len(),
        query_terms_spec(query).len() > 0,
    ensures
        forall|a: int, b: int|
            0 <= a < b < filter_spec(items, kids, query).len() ==> !score_lt(
                command_score(#[trigger] filter_spec(items, kids, query)[b], query_terms_spec(query)).unwrap(),
                command_score(#[trigger] filter_spec(items, kids, query)[a], query_terms_spec(query)).unwrap(),
            ),
{
    let idx = lemma_result_entry(items, kids, query);
    let terms = query_terms_spec(query);
    let sorted = sort_ranked(numbered(all_cands(items, kids, terms)));
    let r = filter_spec(items, kids, query);
    assert forall|a: int, b: int| 0 <= a < b < r.len() implies !score_lt(
        command_score(#[trigger] r[b], terms).unwrap(),
        command_score(#[trigger] r[a], terms).unwrap(),
    ) by {
        assert(0 <= idx[a] && 0 <= idx[b]);
        assert(idx[a] < idx[b]);
        assert(!ranked_lt(sorted[idx[b]], sorted[idx[a]]));
    }
}

// ---------------------------------------------------------------------------
// The palette's registrations and navigation
// ---------------------------------------------------------------------------

/// No two commands share an id.
pub open spec fn unique_ids(s: Seq<CommandView>) -> bool {
    forall|a: int, b: int| 0 <= a < b < s.len() ==> (#[trigger] s[a]).id != (#[trigger] s[b]).id
}

/// What `remove_id` keeps: the commands with another id, in order.
pub proof fn lemma_remove_id(s: Seq<CommandView>, id: Seq<char>)
    ensures
        forall|k: int| 0 <= k < remove_id(s, id).len() ==> (#[trigger] remove_id(s, id)[k]).id != id && s.contains(remove_id(s, id)[k]),
        unique_ids(s) ==> unique_ids(remove_id(s, id)),
        remove_id(s, id).len() <= s.len(),
    decreases s.len(),
{
    if s.len() > 0 {
        let p = s.drop_last();
        lemma_remove_id(p, id);
        let r = remove_id(s, id);
        let rp = remove_id(p, id);
        assert forall|k: int| 0 <= k < r.len() implies (#[trigger] r[k]).id != id && s.contains(r[k]) by {
            if k < rp.len() {
                assert(r[k] == rp[k]);
                let j = choose|j: int| 0 <= j < p.len() && p[j] == r[k];
                assert(s[j] == r[k]);
            } else {
                assert(r[k] == s.last());
                assert(s[s.len() - 1] == r[k]);
            }
        }
        if unique_ids(s) {
            assert forall|a: int, b: int| 0 <= a < b < p.len() implies (#[trigger] p[a]).id != (#[trigger] p[b]).id by {
                assert(p[a] == s[a] && p[b] == s[b]);
            }
            if s.last().id != id {
                assert forall|a: int, b: int| 0 <= a < b < r.len() implies (#[trigger] r[a]).id != (#[trigger] r[b]).id by {
                    if b == r.len() - 1 {
                        assert(r[b] == s.last());
                        assert(r[a] == rp[a]);
                        let j = choose|j: int| 0 <= j < p.len() && p[j] == r[a];
                        assert(s[j] == r[a]);
                        assert(j < s.len() - 1);
                    } else {
                        assert(r[a] == rp[a] && r[b] == rp[b]);
                    }
                }
            }
        }
    }
}

/// Registering a command replaces any command with its id: afterwards the
/// new command is last, no other command has its id, and the others are the
/// earlier commands with another id, in their order.
pub proof fn law_register_replaces(s: Seq<CommandView>, c: CommandView)
    ensures
        register_spec(s, c).last() == c,
        register_spec(s, c).drop_last() == remove_id(s, c.id),
        forall|k: int| 0 <= k < register_spec(s, c).len() - 1 ==> (#[trigger] register_spec(s, c)[k]).id != c.id,
{
    lemma_remove_id(s, c.id);
    let r = register_spec(s, c);
    assert(r.drop_last() =~= remove_id(s, c.id));
    assert forall|k: int| 0 <= k < r.len() - 1 implies (#[trigger] r[k]).id != c.id by {
        assert(r[k] == remove_id(s, c.id)[k]);
    }
}

/// Registering keeps ids unique: whatever was registered and in whatever
/// order, no two registered commands share an id.
pub proof fn law_register_keeps_ids_unique(s: Seq<CommandView>, cs: Seq<CommandView>)
    requires
        unique_ids(s),
    ensures
        unique_ids(register_all(s, cs)),
    decreases cs.len(),
{
    if cs.len() > 0 {
        law_register_keeps_ids_unique(s, cs.drop_last());
        let p = register_all(s, cs.drop_last());
        let c = cs.last();
        lemma_remove_id(p, c.id);
        let q = remove_id(p, c.id);
        let r = q.push(c);
        assert forall|a: int, b: int| 0 <= a < b < r.len() implies (#[trigger] r[a]).id != (#[trigger] r[b]).id by {
            if b == r.len() - 1 {
                assert(r[a] == q[a]);
            } else {
                assert(r[a] == q[a] && r[b] == q[b]);
            }
        }
    }
}

/// Unregistering an id removes every command with it and keeps the others in
/// order; unregistering what was just registered gives what unregistering
/// alone gives.
pub proof fn law_unregister_after_register(s: Seq<CommandView>, c: CommandView)
    ensures
        remove_id(register_spec(s, c), c.id) == remove_id(s, c.id),
        forall|k: int| 0 <= k < remove_id(s, c.id).len() ==> (#[trigger] remove_id(s, c.id)[k]).id != c.id,
{
    lemma_remove_id(s, c.id);
    lemma_remove_id_fixed(remove_id(s, c.id), c.id);
    let r = register_spec(s, c);
    assert(r.drop_last() =~= remove_id(s, c.id));
}

/// Removing an id that no command has changes nothing.
pub proof fn lemma_remove_id_fixed(s: Seq<CommandView>, id: Seq<char>)
    requires
        forall|k: int| 0 <= k < s.len() ==> (#[trigger] s[k]).id != id,
    ensures
        remove_id(s, id) == s,
    decreases s.len(),
{
    if s.len() > 0 {
        let p = s.drop_last();
        assert forall|k: int| 0 <= k < p.len() implies (#[trigger] p[k]).id != id by {
            assert(p[k] == s[k]);
        }
        lemma_remove_id_fixed(p, id);
        assert(s.last().id != id);
        assert(p.push(s.last()) =~= s);
    }
}

/// Unregistering several ids leaves no command with any of them and keeps
/// ids unique.
pub proof fn law_unregister_many(s: Seq<CommandView>, ids: Seq<Seq<char>>)
    ensures
        forall|k: int| 0 <= k < remove_ids(s, ids).len() ==> !ids.contains((#[trigger] remove_ids(s, ids)[k]).id),
        unique_ids(s) ==> unique_ids(remove_ids(s, ids)),
    decreases s.len(),
{
    if s.len() > 0 {
        let p = s.drop_last();
        law_unregister_many(p, ids);
        lemma_remove_ids_from(p, ids);
        let r = remove_ids(s, ids);
        let rp = remove_ids(p, ids);
        assert forall|k: int| 0 <= k < r.len() implies !ids.contains((#[trigger] r[k]).id) by {
            if k < rp.len() {
                assert(r[k] == rp[k]);
            }
        }
        if unique_ids(s) {
            assert forall|a: int, b: int| 0 <= a < b < p.len() implies (#[trigger] p[a]).id != (#[trigger] p[b]).id by {
                assert(p[a] == s[a] && p[b] == s[b]);
            }
            assert forall|a: int, b: int| 0 <= a < b < r.len() implies (#[trigger] r[a]).id != (#[trigger] r[b]).id by {
                if b == rp.len() {
                    assert(r[b] == s.last());
                    assert(r[a] == rp[a]);
                    let j = choose|j: int| 0 <= j < p.len() && p[j] == rp[a];
                    assert(s[j] == r[a]);
                } else {
                    assert(r[a] == rp[a] && r[b] == rp[b]);
                }
            }
        }
    }
}

proof fn lemma_remove_ids_from(s: Seq<CommandView>, ids: Seq<Seq<char>>)
    ensures
        forall|k: int| 0 <= k < remove_ids(s, ids).len() ==> s.contains(#[trigger] remove_ids(s, ids)[k]),
    decreases s.len(),
{
    if s.len() > 0 {
        let p = s.drop_last();
        lemma_remove_ids_from(p, ids);
        let r = remove_ids(s, ids);
        assert forall|k: int| 0 <= k < r.len() implies s.contains(#[trigger] r[k]) by {
            if k < remove_ids(p, ids).len() {
                assert(r[k] == remove_ids(p, ids)[k]);
                let j = choose|j: int| 0 <= j < p.len() && p[j] == r[k];
                assert(s[j] == r[k]);
            } else {
                assert(s[s.len() - 1] == r[k]);
            }
        }
    }
}

/// Reopening always starts at the top level: closing forgets the submenus,
/// so opening again shows the root with nothing drilled into.
pub proof fn law_reopen_starts_at_root(v: PaletteView)
    ensures
        open_spec(close_spec(v)).open,
        open_spec(close_spec(v)).nav.len() == 0,
        open_spec(close_spec(v)).commands == v.commands,
{
}

/// Toggling twice brings the palette back to its open/closed state, at the
/// root level, with the same commands.
pub proof fn law_toggle_twice(v: PaletteView)
    ensures
        toggle_spec(toggle_spec(v)).open == v.open,
        toggle_spec(toggle_spec(v)).nav.len() == 0 || toggle_spec(toggle_spec(v)) == v,
        toggle_spec(toggle_spec(v)).commands == v.commands,
{
}

/// Escape walks back up: each press inside a submenu removes exactly one
/// level and keeps the palette open state; at the root it closes the palette.
pub proof fn law_escape_walks_back(v: PaletteView)
    ensures
        v.nav.len() > 0 ==> back_or_close_spec(v).nav == v.nav.drop_last() && back_or_close_spec(v).open == v.open,
        v.nav.len() == 0 ==> !back_or_close_spec(v).open,
        back_or_close_spec(v).commands == v.commands,
{
}

/// Breadcrumb navigation: going to depth 0 returns to the root, and going to
/// a depth keeps exactly the levels above it.
pub proof fn law_pop_to(v: PaletteView, depth: int)
    requires
        0 <= depth,
    ensures
        pop_to_spec(v, 0).nav.len() == 0,
        pop_to_spec(v, depth).nav.len() == if depth < v.nav.len() { depth } else { v.nav.len() as int },
        forall|k: int| 0 <= k < pop_to_spec(v, depth).nav.len() ==> #[trigger] pop_to_spec(v, depth).nav[k] == v.nav[k],
{
}

proof fn lemma_count_after_nonneg(s: Seq<Occ>, x: int)
    ensures
        count_after(s, x) >= 0,
    decreases s.len(),
{
    if s.len() > 0 {
        lemma_count_after_nonneg(s.drop_last(), x);
    }
}

proof fn lemma_inversions_nonneg(s: Seq<Occ>)
    ensures
        inversions(s) >= 0,
    decreases s.len(),
{
    if s.len() > 0 {
        lemma_inversions_nonneg(s.drop_last());
        lemma_count_after_nonneg(s.drop_last(), s.last().start);
    }
}

/// Matches in query order rank first: a command's order penalty is 0 exactly
/// when one occurrence of each term can be picked in query order without
/// overlap, and at least 1 otherwise.
pub proof fn law_query_order_first(fs: Seq<FieldSpec>, terms: Seq<Seq<char>>, require: bool)
    requires
        score_spec(fs, terms, require) is Some,
    ensures
        score_spec(fs, terms, require).unwrap().order == 0 <==> has_full_chain(occs_for(fs, terms), require),
        score_spec(fs, terms, require).unwrap().order >= 0,
{
    let occs = occs_for(fs, terms);
    if !has_full_chain(occs, require) {
        lemma_inversions_nonneg(crate::search::chosen_occs(occs, require));
        assert(score_spec(fs, terms, require).unwrap() == fallback_score(occs, require));
    }
}

/// A shortcut matches the key press it names: the physical key its key maps
/// to (in any ASCII case), the platform's main modifier exactly when it lists
/// `Main`, Alt and Shift exactly when it lists them, and never the other
/// system modifier.
pub proof fn law_shortcut_matches_its_own_keys(s: ShortcutView, ev: KeyStroke, mac: bool)
    requires
        crate::text::ascii_lower_seq(ev.code@) == crate::text::ascii_lower_seq(key_code(s.key)),
        (if mac { ev.meta_key } else { ev.ctrl_key }) == s.modifiers.contains(Modifier::Main),
        !(if mac { ev.ctrl_key } else { ev.meta_key }),
        ev.alt_key == s.modifiers.contains(Modifier::Alt),
        ev.shift_key == s.modifiers.contains(Modifier::Shift),
    ensures
        shortcut_matches(s, ev, mac),
{
}

/// Dropping the requirement that a chain touch a field other than the
/// promoted submenu title never loses a chain and never worsens the best key:
/// every chain allowed with the requirement is allowed without it.
pub proof fn law_relaxing_title_requirement(occs: Seq<Seq<Occ>>)
    requires
        has_full_chain(occs, true),
    ensures
        has_full_chain(occs, false),
        forall|k_any: Key4, k_req: Key4|
            #[trigger] is_min_key(occs, false, k_any) && #[trigger] is_min_key(occs, true, k_req) ==> key_le(k_any, k_req),
{
    let c0 = choose|c: Seq<int>| #[trigger] full_chain(occs, c, true);
    assert(full_chain(occs, c0, false));
    assert forall|k_any: Key4, k_req: Key4|
        #[trigger] is_min_key(occs, false, k_any) && #[trigger] is_min_key(occs, true, k_req) implies key_le(k_any, k_req) by {
        let c = choose|c: Seq<int>| #[trigger] full_chain(occs, c, true) && chain_key(occs, c) == k_req;
        assert(full_chain(occs, c, false));
    }
}

// ---------------------------------------------------------------------------
// Keyboard handling
// ---------------------------------------------------------------------------

/// A shortcut matches a key press only when every modifier agrees with it:
/// the platform's main modifier (Cmd on a Mac, Ctrl elsewhere) is held
/// exactly when the shortcut lists `Main`, the other system modifier is not
/// held, Alt and Shift are held exactly when listed, and the physical key is
/// the one the shortcut names, in any ASCII case.
pub proof fn law_shortcut_match_needs_exact_modifiers(s: ShortcutView, ev: KeyStroke, mac: bool)
    requires
        shortcut_matches(s, ev, mac),
    ensures
        mac ==> (ev.meta_key <==> s.modifiers.contains(Modifier::Main)) && !ev.ctrl_key,
        !mac ==> (ev.ctrl_key <==> s.modifiers.contains(Modifier::Main)) && !ev.meta_key,
        ev.alt_key <==> s.modifiers.contains(Modifier::Alt),
        ev.shift_key <==> s.modifiers.contains(Modifier::Shift),
        ascii_lower_seq(ev.code@) == ascii_lower_seq(key_code(s.key)),
{
}

/// The main modifier makes a difference: a key press with Ctrl (Cmd on a
/// Mac) held never matches a shortcut that does not list `Main`, and one
/// without it never matches a shortcut that does.
pub proof fn law_main_modifier_must_agree(s: ShortcutView, ev: KeyStroke, mac: bool)
    ensures
        (if mac { ev.meta_key } else { ev.ctrl_key }) && !s.modifiers.contains(Modifier::Main) ==> !shortcut_matches(s, ev, mac),
        !(if mac { ev.meta_key } else { ev.ctrl_key }) && s.modifiers.contains(Modifier::Main) ==> !shortcut_matches(s, ev, mac),
{
}

/// The Main+K shortcut, which opens and closes the palette.
pub open spec fn main_k() -> ShortcutView {
    ShortcutView { modifiers: seq![Modifier::Main], key: seq!['k'] }
}

/// Main+K toggles the palette whatever its state and commands.
pub proof fn law_main_k_always_toggles(cmds: Seq<CommandView>, open: bool, ev: KeyStroke, mac: bool)
    requires
        shortcut_matches(main_k(), ev, mac),
    ensures
        global_key_spec(cmds, open, ev, mac) == GlobalKeyAction::Toggle,
{
    reveal_strlit("k");
    assert("k"@ =~= seq!['k']);
    assert(main_k().modifiers =~= seq![Modifier::Main]);
}

/// Escape goes back one level or closes, whether the palette is open or
/// closed and whatever commands are registered (unless the press is also
/// Main+K).
pub proof fn law_escape_backs_or_closes(cmds: Seq<CommandView>, open: bool, ev: KeyStroke, mac: bool)
    requires
        ev.key@ == seq!['E', 's', 'c', 'a', 'p', 'e'],
        !shortcut_matches(main_k(), ev, mac),
    ensures
        global_key_spec(cmds, open, ev, mac) == GlobalKeyAction::BackOrClose,
{
    reveal_strlit("k");
    reveal_strlit("Escape");
    assert("k"@ =~= seq!['k']);
    assert("Escape"@ =~= seq!['E', 's', 'c', 'a', 'p', 'e']);
}

/// Whether command `c` has a shortcut and it matches the key press.
pub open spec fn shortcut_hits(c: CommandView, ev: KeyStroke, mac: bool) -> bool {
    c.shortcut is Some && shortcut_matches(c.shortcut.unwrap(), ev, mac)
}

/// The first command whose shortcut matches, as `first_shortcut_match`
/// finds it: its shortcut matches and no earlier one does; `None` when no
/// shortcut matches.
proof fn lemma_first_match(cmds: Seq<CommandView>, ev: KeyStroke, mac: bool)
    ensures
        first_shortcut_match(cmds, ev, mac) matches Some(i) ==> 0 <= i < cmds.len() && shortcut_hits(cmds[i], ev, mac)
            && forall|j: int| 0 <= j < i ==> !#[trigger] shortcut_hits(cmds[j], ev, mac),
        first_shortcut_match(cmds, ev, mac) is None ==> forall|j: int| 0 <= j < cmds.len() ==> !#[trigger] shortcut_hits(cmds[j], ev, mac),
    decreases cmds.len(),
{
    if cmds.len() > 0 {
        let p = cmds.drop_last();
        lemma_first_match(p, ev, mac);
        assert forall|j: int| 0 <= j < p.len() implies #[trigger] p[j] == cmds[j] by {}
        match first_shortcut_match(p, ev, mac) {
            Some(i) => {
                assert(p[i] == cmds[i]);
                assert forall|j: int| 0 <= j < i implies !#[trigger] shortcut_hits(cmds[j], ev, mac) by {
                    assert(p[j] == cmds[j]);
                    assert(!shortcut_hits(p[j], ev, mac));
                }
            },
            None => {
                assert forall|j: int| 0 <= j < cmds.len() - 1 implies !#[trigger] shortcut_hits(cmds[j], ev, mac) by {
                    assert(p[j] == cmds[j]);
                    assert(!shortcut_hits(p[j], ev, mac));
                }
                assert(cmds.last() == cmds[cmds.len() - 1]);
            },
        }
    }
}

/// What a window key press does while the palette is closed: when it is
/// neither Main+K nor Escape, it runs the first registered command whose
/// shortcut matches it, and does nothing when none matches. While the
/// palette is open no command shortcut ever runs.
pub proof fn law_command_shortcuts(cmds: Seq<CommandView>, open: bool, ev: KeyStroke, mac: bool)
    requires
        cmds.len() <= usize::MAX,
    ensures
        open ==> !(global_key_spec(cmds, open, ev, mac) is Execute),
        global_key_spec(cmds, open, ev, mac) matches GlobalKeyAction::Execute(i) ==> {
            &&& !open
            &&& 0 <= i < cmds.len()
            &&& shortcut_hits(cmds[i as int], ev, mac)
            &&& forall|j: int| 0 <= j < i ==> !#[trigger] shortcut_hits(cmds[j], ev, mac)
        },
        !open && !shortcut_matches(main_k(), ev, mac) && ev.key@ != seq!['E', 's', 'c', 'a', 'p', 'e']
            ==> (global_key_spec(cmds, open, ev, mac) is Ignore <==> forall|j: int|
            0 <= j < cmds.len() ==> !#[trigger] shortcut_hits(cmds[j], ev, mac)),
{
    reveal_strlit("k");
    reveal_strlit("Escape");
    assert("k"@ =~= seq!['k']);
    assert("Escape"@ =~= seq!['E', 's', 'c', 'a', 'p', 'e']);
    assert(main_k().modifiers =~= seq![Modifier::Main]);
    assert(main_k() == crate::component::toggle_shortcut());
    lemma_first_match(cmds, ev, mac);
    if first_shortcut_match(cmds, ev, mac) is Some {
        let i = first_shortcut_match(cmds, ev, mac).unwrap();
        assert(i as usize as int == i);
        assert(shortcut_hits(cmds[i], ev, mac));
    }
}

/// ArrowDown moves the highlight one result down and stops at the last
/// result; ArrowUp moves it one up and stops at the first. Either way the
/// highlight stays among the results.
pub proof fn law_arrows_move_by_one(query_empty: bool, depth: int, count: int, cur: int)
    requires
        0 <= cur < count <= usize::MAX,
    ensures
        cur + 1 < count ==> input_key_spec(seq!['A', 'r', 'r', 'o', 'w', 'D', 'o', 'w', 'n'], query_empty, depth, count, cur)
            == InputKeyAction::Select((cur + 1) as usize),
        cur + 1 == count ==> input_key_spec(seq!['A', 'r', 'r', 'o', 'w', 'D', 'o', 'w', 'n'], query_empty, depth, count, cur)
            == InputKeyAction::Select(cur as usize),
        cur > 0 ==> input_key_spec(seq!['A', 'r', 'r', 'o', 'w', 'U', 'p'], query_empty, depth, count, cur)
            == InputKeyAction::Select((cur - 1) as usize),
        cur == 0 ==> input_key_spec(seq!['A', 'r', 'r', 'o', 'w', 'U', 'p'], query_empty, depth, count, cur)
            == InputKeyAction::Select(0),
{
    reveal_strlit("Backspace");
    reveal_strlit("ArrowDown");
    reveal_strlit("ArrowUp");
    assert("ArrowDown"@ =~= seq!['A', 'r', 'r', 'o', 'w', 'D', 'o', 'w', 'n']);
    assert("ArrowUp"@ =~= seq!['A', 'r', 'r', 'o', 'w', 'U', 'p']);
    assert("Backspace"@.len() == 9);
    assert("Backspace"@[0] == 'B');
}

/// ArrowDown never skips a result: from any highlighted result it selects
/// the next one, or the last when there is no next one.
pub proof fn law_arrow_down_is_next_or_last(query_empty: bool, depth: int, count: int, cur: int)
    requires
        0 <= cur,
        0 < count <= usize::MAX,
    ensures
        input_key_spec(seq!['A', 'r', 'r', 'o', 'w', 'D', 'o', 'w', 'n'], query_empty, depth, count, cur)
            == InputKeyAction::Select((if cur + 1 < count { cur + 1 } else { count - 1 }) as usize),
{
    reveal_strlit("Backspace");
    reveal_strlit("ArrowDown");
    reveal_strlit("ArrowUp");
    assert("ArrowDown"@ =~= seq!['A', 'r', 'r', 'o', 'w', 'D', 'o', 'w', 'n']);
    assert("Backspace"@[0] == 'B');
}

/// Enter activates the highlighted result when there are results, and
/// Backspace on an empty query inside a submenu goes back, even when the
/// level shows no results.
pub proof fn law_enter_and_backspace(query_empty: bool, depth: int, count: int, cur: int)
    ensures
        count > 0 ==> input_key_spec(seq!['E', 'n', 't', 'e', 'r'], query_empty, depth, count, cur)
            == InputKeyAction::Activate(cur as usize),
        query_empty && depth > 0 ==> input_key_spec(seq!['B', 'a', 'c', 'k', 's', 'p', 'a', 'c', 'e'], query_empty, depth, count, cur)
            == InputKeyAction::Back,
        count == 0 && !(query_empty && depth > 0) ==> forall|key: Seq<char>| #[trigger] input_key_spec(key, query_empty, depth, count, cur)
            == InputKeyAction::Nothing,
{
    reveal_strlit("Backspace");
    reveal_strlit("ArrowDown");
    reveal_strlit("ArrowUp");
    reveal_strlit("Enter");
    assert("Enter"@ =~= seq!['E', 'n', 't', 'e', 'r']);
    assert("Backspace"@ =~= seq!['B', 'a', 'c', 'k', 's', 'p', 'a', 'c', 'e']);
}

// ---------------------------------------------------------------------------
// Completeness of the search
// ---------------------------------------------------------------------------

/// Some command of `r` has the id `id`.
pub open spec fn has_cmd_id(r: Seq<CommandView>, id: Seq<char>) -> bool {
    exists|m: int| 0 <= m < r.len() && #[trigger] r[m].id == id
}

/// Some candidate of `s` is the command `c`.
pub open spec fn cand_has(s: Seq<(ScoreSpec, CommandView)>, c: CommandView) -> bool {
    exists|m: int| 0 <= m < s.len() && #[trigger] s[m].1 == c
}

proof fn lemma_insert_keeps(s: Seq<Ranked>, x: Ranked)
    ensures
        insert_ranked(s, x).contains(x),
        forall|k: int| 0 <= k < s.len() ==> insert_ranked(s, x).contains(#[trigger] s[k]),
{
    lemma_insert_pos(s, x);
    let p = insert_pos(s, x);
    let u = s.insert(p, x);
    assert(u[p] == x);
    assert forall|k: int| 0 <= k < s.len() implies u.contains(#[trigger] s[k]) by {
        if k < p {
            assert(u[k] == s[k]);
        } else {
            assert(u[k + 1] == s[k]);
        }
    }
}

proof fn lemma_sort_keeps(s: Seq<Ranked>)
    ensures
        forall|k: int| 0 <= k < s.len() ==> sort_ranked(s).contains(#[trigger] s[k]),
    decreases s.len(),
{
    if s.len() > 0 {
        let p = s.drop_last();
        lemma_sort_keeps(p);
        let sp = sort_ranked(p);
        lemma_insert_keeps(sp, s.last());
        assert forall|k: int| 0 <= k < s.len() implies sort_ranked(s).contains(#[trigger] s[k]) by {
            if k < s.len() - 1 {
                assert(p[k] == s[k]);
                assert(sp.contains(p[k]));
                let m = choose|m: int| 0 <= m < sp.len() && sp[m] == p[k];
                assert(insert_ranked(sp, s.last()).contains(sp[m]));
            } else {
                assert(s[k] == s.last());
            }
        }
    }
}

proof fn lemma_dedup_keeps_ids(s: Seq<Ranked>)
    ensures
        forall|k: int| 0 <= k < s.len() ==> has_cmd_id(dedup_ids(s), #[trigger] s[k].cmd.id),
    decreases s.len(),
{
    if s.len() > 0 {
        let p = s.drop_last();
        lemma_dedup_keeps_ids(p);
        let d = dedup_ids(p);
        let r = dedup_ids(s);
        assert(r == d || r == d.push(s.last().cmd));
        assert forall|k: int| 0 <= k < s.len() implies has_cmd_id(r, #[trigger] s[k].cmd.id) by {
            if k < s.len() - 1 {
                assert(p[k] == s[k]);
                assert(has_cmd_id(d, p[k].cmd.id));
                let m = choose|m: int| 0 <= m < d.len() && #[trigger] d[m].id == p[k].cmd.id;
                assert(r[m] == d[m]);
            } else if exists|j: int| 0 <= j < s.len() - 1 && #[trigger] s[j].cmd.id == s.last().cmd.id {
                let j = choose|j: int| 0 <= j < s.len() - 1 && #[trigger] s[j].cmd.id == s.last().cmd.id;
                assert(p[j] == s[j]);
                assert(has_cmd_id(d, p[j].cmd.id));
                let m = choose|m: int| 0 <= m < d.len() && #[trigger] d[m].id == p[j].cmd.id;
                assert(r[m] == d[m]);
            } else {
                assert(r == d.push(s.last().cmd));
                assert(r[d.len() as int].id == s[k].cmd.id);
            }
        }
    }
}

proof fn lemma_scored_keeps(cs: Seq<CommandView>, terms: Seq<Seq<char>>)
    ensures
        forall|k: int| 0 <= k < cs.len() && command_score(cs[k], terms) is Some ==> cand_has(scored_list(cs, terms), #[trigger] cs[k]),
    decreases cs.len(),
{
    if cs.len() > 0 {
        let p = cs.drop_last();
        lemma_scored_keeps(p, terms);
        let sp = scored_list(p, terms);
        let sl = scored_list(cs, terms);
        assert forall|k: int| 0 <= k < cs.len() && command_score(cs[k], terms) is Some implies cand_has(sl, #[trigger] cs[k]) by {
            if k < cs.len() - 1 {
                assert(p[k] == cs[k]);
                assert(cand_has(sp, p[k]));
                let m = choose|m: int| 0 <= m < sp.len() && #[trigger] sp[m].1 == p[k];
                assert(sl[m] == sp[m]);
            } else {
                assert(cs[k] == cs.last());
                assert(sl[sp.len() as int].1 == cs.last());
            }
        }
    }
}

proof fn lemma_cand_concat(a: Seq<(ScoreSpec, CommandView)>, b: Seq<(ScoreSpec, CommandView)>, c: CommandView)
    requires
        cand_has(a, c) || cand_has(b, c),
    ensures
        cand_has(a + b, c),
{
    if cand_has(a, c) {
        let m = choose|m: int| 0 <= m < a.len() && #[trigger] a[m].1 == c;
        assert((a + b)[m] == a[m]);
    } else {
        let m = choose|m: int| 0 <= m < b.len() && #[trigger] b[m].1 == c;
        assert((a + b)[a.len() + m] == b[m]);
    }
}

proof fn lemma_all_cands_keeps(items: Seq<CommandView>, kids: Seq<Seq<CommandView>>, terms: Seq<Seq<char>>, i: int, j: int)
    requires
        kids.len() >= items.len(),
        0 <= i < items.len(),
    ensures
        command_score(items[i], terms) is Some ==> cand_has(all_cands(items, kids, terms), items[i]),
        items[i].search_children && items[i].children is Some && 0 <= j < kids[i].len() && command_score(
            promoted(kids[i][j], items[i].name),
            terms,
        ) is Some ==> cand_has(all_cands(items, kids, terms), promoted(kids[i][j], items[i].name)),
    decreases items.len(),
{
    let n = items.len() - 1;
    let p = items.drop_last();
    let v = items.last();
    if i < n {
        assert(p[i] == items[i]);
        lemma_all_cands_keeps(p, kids, terms, i, j);
        if command_score(items[i], terms) is Some {
            lemma_cand_concat(all_cands(p, kids, terms), item_cands(v, kids[n], terms), items[i]);
        }
        if items[i].search_children && items[i].children is Some && 0 <= j < kids[i].len() && command_score(
            promoted(kids[i][j], items[i].name),
            terms,
        ) is Some {
            lemma_cand_concat(all_cands(p, kids, terms), item_cands(v, kids[n], terms), promoted(kids[i][j], items[i].name));
        }
    } else {
        assert(items[i] == v);
        let head = scored_list(seq![v], terms);
        lemma_scored_keeps(seq![v], terms);
        assert(seq![v][0] == v);
        if command_score(v, terms) is Some {
            assert(cand_has(head, seq![v][0]));
            lemma_cand_concat(head, if v.search_children && v.children is Some {
                scored_list(promote_all(kids[n], v.name), terms)
            } else {
                seq![]
            }, v);
            lemma_cand_concat(all_cands(p, kids, terms), item_cands(v, kids[n], terms), v);
        }
        if v.search_children && v.children is Some && 0 <= j < kids[i].len() && command_score(promoted(kids[i][j], v.name), terms) is Some {
            let pk = promote_all(kids[n], v.name);
            lemma_scored_keeps(pk, terms);
            assert(pk[j] == promoted(kids[i][j], v.name));
            assert(cand_has(scored_list(pk, terms), pk[j]));
            lemma_cand_concat(head, scored_list(pk, terms), pk[j]);
            lemma_cand_concat(all_cands(p, kids, terms), item_cands(v, kids[n], terms), pk[j]);
        }
    }
}

/// Nothing that matches is lost: for a non-empty query, every item that
/// matches every term, and every child of a branch with searchable children
/// that matches every term (somewhere besides the branch's title), appears
/// among the results under its id. A result with that id comes from the best
/// ranked of the candidates sharing it.
pub proof fn law_matching_commands_are_found(
    items: Seq<CommandView>,
    kids: Seq<Seq<CommandView>>,
    query: Seq<char>,
    i: int,
    j: int,
)
    requires
        kids.len() == items.len(),
        query_terms_spec(query).len() > 0,
        0 <= i < items.len(),
    ensures
        command_score(items[i], query_terms_spec(query)) is Some ==> has_cmd_id(filter_spec(items, kids, query), items[i].id),
        items[i].search_children && items[i].children is Some && 0 <= j < kids[i].len() && command_score(
            promoted(kids[i][j], items[i].name),
            query_terms_spec(query),
        ) is Some ==> has_cmd_id(filter_spec(items, kids, query), kids[i][j].id),
{
    let terms = query_terms_spec(query);
    lemma_all_cands_keeps(items, kids, terms, i, j);
    if command_score(items[i], terms) is Some {
        lemma_candidate_found(items, kids, query, items[i]);
    }
    if items[i].search_children && items[i].children is Some && 0 <= j < kids[i].len() && command_score(
        promoted(kids[i][j], items[i].name),
        terms,
    ) is Some {
        lemma_candidate_found(items, kids, query, promoted(kids[i][j], items[i].name));
    }
}

/// A candidate of the search shows up among the results under its id.
proof fn lemma_candidate_found(items: Seq<CommandView>, kids: Seq<Seq<CommandView>>, query: Seq<char>, c: CommandView)
    requires
        query_terms_spec(query).len() > 0,
        cand_has(all_cands(items, kids, query_terms_spec(query)), c),
    ensures
        has_cmd_id(filter_spec(items, kids, query), c.id),
{
    let terms = query_terms_spec(query);
    let cands = all_cands(items, kids, terms);
    let nb = numbered(cands);
    let sorted = sort_ranked(nb);
    lemma_sort_keeps(nb);
    lemma_dedup_keeps_ids(sorted);
    let m = choose|m: int| 0 <= m < cands.len() && #[trigger] cands[m].1 == c;
    assert(nb[m].cmd == c);
    assert(sorted.contains(nb[m]));
    let q = choose|q: int| 0 <= q < sorted.len() && sorted[q] == nb[m];
    assert(has_cmd_id(dedup_ids(sorted), sorted[q].cmd.id));
}

/// Entering a branch, at any depth, adds exactly one level on top of the
/// stack: it is labelled with the branch's name and holds exactly the given
/// children (those the producer returned); the levels below, the registered
/// commands and the open state are unchanged. Going back then returns to the
/// state before entering.
pub proof fn law_enter_pushes_one_level(v: PaletteView, branch: CommandView, items: Seq<CommandView>)
    ensures
        enter_spec(v, branch, items).nav.len() == v.nav.len() + 1,
        enter_spec(v, branch, items).nav.last().items == items,
        enter_spec(v, branch, items).nav.last().label == branch.name,
        forall|k: int| 0 <= k < v.nav.len() ==> #[trigger] enter_spec(v, branch, items).nav[k] == v.nav[k],
        enter_spec(v, branch, items).commands == v.commands,
        enter_spec(v, branch, items).open == v.open,
        crate::context::back_spec(enter_spec(v, branch, items)) == v,
{
    assert(enter_spec(v, branch, items).nav.drop_last() =~= v.nav);
}

proof fn lemma_utf8_len_at_least_len(s: Seq<char>)
    ensures
        crate::text::utf8_len(s) >= s.len(),
    decreases s.len(),
{
    if s.len() > 0 {
        let p = s.drop_last();
        lemma_utf8_len_at_least_len(p);
        assert(p.push(s.last()) =~= s);
        crate::text::lemma_utf8_len_push(p, s.last());
    }
}

proof fn lemma_utf8_len_single_ascii(c: char)
    requires
        (c as u32) < 0x80,
    ensures
        crate::text::utf8_len(seq![c]) == 1,
{
    assert(seq![c] =~= Seq::<char>::empty().push(c));
    crate::text::lemma_utf8_len_push(Seq::<char>::empty(), c);
    assert(vstd::utf8::encode_utf8(Seq::<char>::empty()) =~= Seq::<u8>::empty());
}

/// The physical key a shortcut key names: a single ASCII letter of either
/// case is "Key" and the letter in upper case, a single digit is "Digit" and
/// the digit, and a key name of two or more characters ("Escape",
/// "ArrowUp") is used as it is.
pub proof fn law_key_codes(key: Seq<char>)
    ensures
        key.len() == 1 && 'a' <= key[0] <= 'z' ==> key_code(key) == seq!['K', 'e', 'y', ((key[0] as u32) - 32) as char],
        key.len() == 1 && 'A' <= key[0] <= 'Z' ==> key_code(key) == seq!['K', 'e', 'y', key[0]],
        key.len() == 1 && '0' <= key[0] <= '9' ==> key_code(key) == seq!['D', 'i', 'g', 'i', 't', key[0]],
        key.len() >= 2 ==> key_code(key) == key,
{
    reveal_strlit("Key");
    reveal_strlit("Digit");
    lemma_utf8_len_at_least_len(key);
    if key.len() == 1 && (key[0] as u32) < 0x80 {
        assert(key =~= seq![key[0]]);
        lemma_utf8_len_single_ascii(key[0]);
    }
}

/// The highlighted result is the first with the selected id: `position_of`
/// gives an index holding that id with no earlier one holding it, and
/// nothing when no result has the id.
pub proof fn law_selection_is_first_with_id(cmds: Seq<CommandView>, id: Seq<char>)
    ensures
        crate::component::position_of(cmds, id) matches Some(i) ==> 0 <= i < cmds.len() && cmds[i].id == id
            && forall|j: int| 0 <= j < i ==> (#[trigger] cmds[j]).id != id,
        crate::component::position_of(cmds, id) is None ==> forall|j: int| 0 <= j < cmds.len() ==> (#[trigger] cmds[j]).id != id,
    decreases cmds.len(),
{
    if cmds.len() > 0 {
        let p = cmds.drop_last();
        law_selection_is_first_with_id(p, id);
        assert forall|j: int| 0 <= j < p.len() implies #[trigger] p[j] == cmds[j] by {}
        if crate::component::position_of(p, id) is None {
            assert forall|j: int| 0 <= j < cmds.len() - 1 implies (#[trigger] cmds[j]).id != id by {
                assert(p[j] == cmds[j]);
            }
        } else {
            let i = crate::component::position_of(p, id).unwrap();
            assert forall|j: int| 0 <= j < i implies (#[trigger] cmds[j]).id != id by {
                assert(p[j] == cmds[j]);
            }
        }
    }
}

} // verus!
