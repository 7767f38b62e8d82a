//! The rank bookkeeping of Reciprocal Rank Fusion: for every id that
//! occurs in the lexical or the semantic ranking, the positions at which it
//! occurs in each. The fused score of an id is a sum over these positions
//! (`1 / (60 + rank + 1)` each), so it depends only on them.
use vstd::prelude::*;

verus! {

/// One id of the fused ranking with the (0-based) positions at which it
/// occurs in the lexical and in the semantic ranking, in increasing order.
pub struct FusedEntry {
    pub id: String,
    pub lexical_ranks: Vec<usize>,
    pub semantic_ranks: Vec<usize>,
}

/// The abstract content of a fused entry.
pub ghost struct FusedView {
    pub id: Seq<char>,
    pub lexical_ranks: Seq<usize>,
    pub semantic_ranks: Seq<usize>,
}

impl View for FusedEntry {
    type V = FusedView;

    open spec fn view(&self) -> FusedView {
        FusedView { id: self.id@, lexical_ranks: self.lexical_ranks@, semantic_ranks: self.semantic_ranks@ }
    }
}

pub open spec fn id_views(list: Seq<String>) -> Seq<Seq<char>> {
    list.map_values(|s: String| s@)
}

/// The positions below `n` at which `id` occurs in `list`, in increasing order.
pub open spec fn positions_upto(list: Seq<Seq<char>>, id: Seq<char>, n: int) -> Seq<usize>
    decreases n,
{
    if n <= 0 {
        seq![]
    } else if list[n - 1] == id {
        positions_upto(list, id, n - 1).push((n - 1) as usize)
    } else {
        positions_upto(list, id, n - 1)
    }
}

/// All positions at which `id` occurs in `list`, in increasing order.
pub open spec fn positions(list: Seq<Seq<char>>, id: Seq<char>) -> Seq<usize> {
    positions_upto(list, id, list.len() as int)
}

/// The distinct elements among the first `n` of `all`, in order of their
/// first occurrence.
pub open spec fn first_seen(all: Seq<Seq<char>>, n: int) -> Seq<Seq<char>>
    decreases n,
{
    if n <= 0 {
        seq![]
    } else {
        let prev = first_seen(all, n - 1);
        if prev.contains(all[n - 1]) {
            prev
        } else {
            prev.push(all[n - 1])
        }
    }
}

/// The fused ranking of two rankings of ids: every id of either, once, in
/// order of first occurrence (lexical ranking first), with its positions.
pub open spec fn fused(lexical: Seq<Seq<char>>, semantic: Seq<Seq<char>>) -> Seq<FusedView> {
    let ids = first_seen(lexical + semantic, (lexical.len() + semantic.len()) as int);
    Seq::new(
        ids.len(),
        |e: int| FusedView { id: ids[e], lexical_ranks: positions(lexical, ids[e]), semantic_ranks: positions(semantic, ids[e]) },
    )
}

pub open spec fn entry_views(v: Seq<FusedEntry>) -> Seq<FusedView> {
    v.map_values(|f: FusedEntry| f@)
}

proof fn lemma_first_seen_contains(all: Seq<Seq<char>>, n: int, id: Seq<char>)
    requires
        0 <= n <= all.len(),
    ensures
        first_seen(all, n).contains(id) <==> exists|k: int| 0 <= k < n && all[k] == id,
        forall|a: int, b: int| 0 <= a < b < first_seen(all, n).len() ==> first_seen(all, n)[a] != first_seen(all, n)[b],
    decreases n,
{
    if n > 0 {
        lemma_first_seen_contains(all, n - 1, id);
        let prev = first_seen(all, n - 1);
        if !prev.contains(all[n - 1]) {
            let cur = prev.push(all[n - 1]);
            assert(cur.contains(id) <==> prev.contains(id) || all[n - 1] == id) by {
                if cur.contains(id) {
                    let j = choose|j: int| 0 <= j < cur.len() && cur[j] == id;
                    if j < prev.len() {
                        assert(prev[j] == id);
                    }
                }
                if prev.contains(id) {
                    let j = choose|j: int| 0 <= j < prev.len() && prev[j] == id;
                    assert(cur[j] == id);
                }
                if all[n - 1] == id {
                    assert(cur[prev.len() as int] == id);
                }
            }
            assert forall|a: int, b: int| 0 <= a < b < cur.len() implies cur[a] != cur[b] by {
                if b == prev.len() {
                    assert(cur[a] == prev[a]);
                    if prev[a] == all[n - 1] {
                        assert(prev.contains(all[n - 1]));
                    }
                } else {
                    assert(cur[a] == prev[a] && cur[b] == prev[b]);
                }
            }
        }
        if exists|k: int| 0 <= k < n - 1 && all[k] == id {
        } else if all[n - 1] == id {
        } else {
            assert(!(exists|k: int| 0 <= k < n && all[k] == id)) by {
                if exists|k: int| 0 <= k < n && all[k] == id {
                    let k = choose|k: int| 0 <= k < n && all[k] == id;
                    assert(k < n - 1);
                }
            }
        }
    }
}

proof fn lemma_positions_absent(list: Seq<Seq<char>>, id: Seq<char>, n: int)
    requires
        0 <= n <= list.len(),
        forall|k: int| 0 <= k < n ==> list[k] != id,
    ensures
        positions_upto(list, id, n) == Seq::<usize>::empty(),
    decreases n,
{
    if n > 0 {
        lemma_positions_absent(list, id, n - 1);
    }
}

/// Index of the entry whose id is `id`, if any.
fn find_entry(entries: &Vec<FusedEntry>, id: &String) -> (r: Option<usize>)
    ensures
        r matches Some(e) ==> e < entries.len() && entries@[e as int].id@ == id@,
        r is None ==> forall|e: int| 0 <= e < entries.len() ==> entries@[e].id@ != id@,
{
    let mut e: usize = 0;
    while e < entries.len()
        invariant
            e <= entries.len(),
            forall|f: int| 0 <= f < e ==> entries@[f].id@ != id@,
        decreases entries.len() - e,
    {
        if entries[e].id == *id {
            return Some(e);
        }
        e = e + 1;
    }
    None
}

/// Collect, for every id of the two rankings, the positions at which it
/// occurs in each; ids come once each, in order of first occurrence.
pub fn fuse_rankings(lexical: &[String], semantic: &[String]) -> (entries: Vec<FusedEntry>)
    ensures
        entry_views(entries@) == fused(id_views(lexical@), id_views(semantic@)),
{
    let ghost lex = id_views(lexical@);
    let ghost sem = id_views(semantic@);
    let ghost all = lex + sem;
    let mut entries: Vec<FusedEntry> = Vec::new();
    let mut r: usize = 0;
    while r < lexical.len()
        invariant
            lex == id_views(lexical@),
            all == lex + sem,
            r <= lexical.len(),
            entries.len() == first_seen(all, r as int).len(),
            forall|e: int| 0 <= e < entries.len() ==> {
                &&& (#[trigger] entries@[e]).id@ == first_seen(all, r as int)[e]
                &&& entries@[e].lexical_ranks@ == positions_upto(lex, entries@[e].id@, r as int)
                &&& entries@[e].semantic_ranks@ == Seq::<usize>::empty()
            },
        decreases lexical.len() - r,
    {
        let ghost old_entries = entries@;
        proof {
            assert(all[r as int] == lex[r as int]);
            lemma_first_seen_contains(all, r as int, lex[r as int]);
        }
        match find_entry(&entries, &lexical[r]) {
            Some(e) => {
                entries[e].lexical_ranks.push(r);
                proof {
                    assert(first_seen(all, r as int).contains(all[r as int])) by {
                        assert(first_seen(all, r as int)[e as int] == all[r as int]);
                    }
                    assert forall|f: int| 0 <= f < entries.len() implies {
                        &&& (#[trigger] entries@[f]).id@ == first_seen(all, r + 1)[f]
                        &&& entries@[f].lexical_ranks@ == positions_upto(lex, entries@[f].id@, r + 1)
                        &&& entries@[f].semantic_ranks@ == Seq::<usize>::empty()
                    } by {
                        if f != e {
                            assert(entries@[f] == old_entries[f]);
                            if old_entries[f].id@ == lex[r as int] {
                                lemma_first_seen_contains(all, r as int, lex[r as int]);
                            }
                        }
                    }
                }
            },
            None => {
                let entry = FusedEntry { id: lexical[r].clone(), lexical_ranks: vec![r], semantic_ranks: Vec::new() };
                entries.push(entry);
                proof {
                    assert(!first_seen(all, r as int).contains(all[r as int])) by {
                        if first_seen(all, r as int).contains(all[r as int]) {
                            let j = choose|j: int| 0 <= j < first_seen(all, r as int).len() && first_seen(all, r as int)[j] == all[r as int];
                            assert(old_entries[j].id@ == lexical@[r as int]@);
                        }
                    }
                    assert forall|f: int| 0 <= f < entries.len() implies {
                        &&& (#[trigger] entries@[f]).id@ == first_seen(all, r + 1)[f]
                        &&& entries@[f].lexical_ranks@ == positions_upto(lex, entries@[f].id@, r + 1)
                        &&& entries@[f].semantic_ranks@ == Seq::<usize>::empty()
                    } by {
                        if f < old_entries.len() {
                            assert(entries@[f] == old_entries[f]);
                        } else {
                            assert forall|k: int| 0 <= k < r implies lex[k] != lex[r as int] by {
                                assert(all[k] == lex[k]);
                            }
                            lemma_positions_absent(lex, lex[r as int], r as int);
                            assert(entries@[f].lexical_ranks@ =~= seq![r]);
                        }
                    }
                }
            },
        }
        r = r + 1;
    }
    let mut q: usize = 0;
    while q < semantic.len()
        invariant
            lex == id_views(lexical@),
            sem == id_views(semantic@),
            all == lex + sem,
            q <= semantic.len(),
            entries.len() == first_seen(all, lex.len() + q as int).len(),
            forall|e: int| 0 <= e < entries.len() ==> {
                &&& (#[trigger] entries@[e]).id@ == first_seen(all, lex.len() + q as int)[e]
                &&& entries@[e].lexical_ranks@ == positions(lex, entries@[e].id@)
                &&& entries@[e].semantic_ranks@ == positions_upto(sem, entries@[e].id@, q as int)
            },
        decreases semantic.len() - q,
    {
        let ghost old_entries = entries@;
        let ghost n: int = lex.len() + q;
        proof {
            assert(all[n] == sem[q as int]);
            lemma_first_seen_contains(all, n, sem[q as int]);
        }
        match find_entry(&entries, &semantic[q]) {
            Some(e) => {
                entries[e].semantic_ranks.push(q);
                proof {
                    assert(first_seen(all, n).contains(all[n])) by {
                        assert(first_seen(all, n)[e as int] == all[n]);
                    }
                    assert forall|f: int| 0 <= f < entries.len() implies {
                        &&& (#[trigger] entries@[f]).id@ == first_seen(all, n + 1)[f]
                        &&& entries@[f].lexical_ranks@ == positions(lex, entries@[f].id@)
                        &&& entries@[f].semantic_ranks@ == positions_upto(sem, entries@[f].id@, q + 1)
                    } by {
                        if f != e {
                            assert(entries@[f] == old_entries[f]);
                            if old_entries[f].id@ == sem[q as int] {
                                lemma_first_seen_contains(all, n, sem[q as int]);
                            }
                        }
                    }
                }
            },
            None => {
                let entry = FusedEntry { id: semantic[q].clone(), lexical_ranks: Vec::new(), semantic_ranks: vec![q] };
                entries.push(entry);
                proof {
                    assert(!first_seen(all, n).contains(all[n])) by {
                        if first_seen(all, n).contains(all[n]) {
                            let j = choose|j: int| 0 <= j < first_seen(all, n).len() && first_seen(all, n)[j] == all[n];
                            assert(old_entries[j].id@ == semantic@[q as int]@);
                        }
                    }
                    assert forall|f: int| 0 <= f < entries.len() implies {
                        &&& (#[trigger] entries@[f]).id@ == first_seen(all, n + 1)[f]
                        &&& entries@[f].lexical_ranks@ == positions(lex, entries@[f].id@)
                        &&& entries@[f].semantic_ranks@ == positions_upto(sem, entries@[f].id@, q + 1)
                    } by {
                        if f < old_entries.len() {
                            assert(entries@[f] == old_entries[f]);
                        } else {
                            let id = sem[q as int];
                            assert forall|k: int| 0 <= k < lex.len() implies lex[k] != id by {
                                assert(all[k] == lex[k]);
                            }
                            lemma_positions_absent(lex, id, lex.len() as int);
                            assert forall|k: int| 0 <= k < q implies sem[k] != id by {
                                assert(all[lex.len() + k] == sem[k]);
                            }
                            lemma_positions_absent(sem, id, q as int);
                            assert(entries@[f].semantic_ranks@ =~= seq![q]);
                        }
                    }
                }
            },
        }
        q = q + 1;
    }
    proof {
        assert(entry_views(entries@) =~= fused(lex, sem));
    }
    entries
}

proof fn lemma_positions_nonempty(list: Seq<Seq<char>>, id: Seq<char>, n: int)
    requires
        0 <= n <= list.len(),
    ensures
        positions_upto(list, id, n).len() > 0 <==> exists|k: int| 0 <= k < n && list[k] == id,
    decreases n,
{
    if n > 0 {
        lemma_positions_nonempty(list, id, n - 1);
        if positions_upto(list, id, n).len() == 0 {
            assert forall|k: int| 0 <= k < n implies list[k] != id by {
                if k < n - 1 {
                } else {
                }
            }
        } else if list[n - 1] != id {
            let k = choose|k: int| 0 <= k < n - 1 && list[k] == id;
            assert(0 <= k < n && list[k] == id);
        }
    }
}

/// Law: every id of either ranking occurs exactly once in the fused ranking,
/// and nothing else does.
pub proof fn law_fused_ids_once(lexical: Seq<Seq<char>>, semantic: Seq<Seq<char>>)
    ensures
        forall|a: int, b: int| 0 <= a < b < fused(lexical, semantic).len()
            ==> fused(lexical, semantic)[a].id != fused(lexical, semantic)[b].id,
        forall|x: Seq<char>| (lexical.contains(x) || semantic.contains(x)) <==>
            exists|e: int| 0 <= e < fused(lexical, semantic).len() && #[trigger] fused(lexical, semantic)[e].id == x,
{
    let all = lexical + semantic;
    let n = (lexical.len() + semantic.len()) as int;
    let ids = first_seen(all, n);
    let f = fused(lexical, semantic);
    lemma_first_seen_contains(all, n, Seq::<char>::empty());
    assert forall|x: Seq<char>| (lexical.contains(x) || semantic.contains(x)) <==>
        exists|e: int| 0 <= e < f.len() && #[trigger] f[e].id == x by {
        lemma_first_seen_contains(all, n, x);
        if lexical.contains(x) {
            let k = choose|k: int| 0 <= k < lexical.len() && lexical[k] == x;
            assert(all[k] == x);
        }
        if semantic.contains(x) {
            let k = choose|k: int| 0 <= k < semantic.len() && semantic[k] == x;
            assert(all[lexical.len() + k] == x);
        }
        if lexical.contains(x) || semantic.contains(x) {
            assert(ids.contains(x));
            let j = choose|j: int| 0 <= j < ids.len() && ids[j] == x;
            assert(f[j].id == x);
        }
        if exists|e: int| 0 <= e < f.len() && #[trigger] f[e].id == x {
            let e = choose|e: int| 0 <= e < f.len() && #[trigger] f[e].id == x;
            assert(ids[e] == x);
            assert(ids.contains(x));
            let k = choose|k: int| 0 <= k < n && all[k] == x;
            if k < lexical.len() {
                assert(lexical[k] == x);
            } else {
                assert(semantic[k - lexical.len()] == x);
            }
        }
    }
}

/// Law: an entry is marked as lexical (semantic) exactly when its id occurs
/// in the lexical (semantic) ranking.
pub proof fn law_fused_flags(lexical: Seq<Seq<char>>, semantic: Seq<Seq<char>>, e: int)
    requires
        0 <= e < fused(lexical, semantic).len(),
    ensures
        fused(lexical, semantic)[e].lexical_ranks.len() > 0 <==> lexical.contains(fused(lexical, semantic)[e].id),
        fused(lexical, semantic)[e].semantic_ranks.len() > 0 <==> semantic.contains(fused(lexical, semantic)[e].id),
{
    let id = fused(lexical, semantic)[e].id;
    lemma_positions_nonempty(lexical, id, lexical.len() as int);
    lemma_positions_nonempty(semantic, id, semantic.len() as int);
}

} // verus!
