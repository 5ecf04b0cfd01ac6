//! The store of raw path strings: the source of truth from which the trie and
//! its rows are rebuilt, and the detach / reattach steps of a rename.
use vstd::prelude::*;
use vstd::multiset::Multiset;
use crate::node::{Node, is_chain_prefix, rows_view};
use crate::path::{
    is_below, under, segments, trimmed, trim_str, split_segments, starts_below, suffix_below, eq_str,
    path_under,
};

verus! {

broadcast use vstd::string::group_string_axioms, vstd::seq_lib::group_to_multiset_ensures;

/// The views of a sequence of strings.
pub open spec fn strings_view(v: Seq<String>) -> Seq<Seq<char>> {
    v.map_values(|x: String| x@)
}

/// `e` is `p` itself or lies below it.
pub open spec fn in_subtree(e: Seq<char>, p: Seq<char>) -> bool {
    e == p || is_below(e, p)
}

/// Holds of the entries outside the subtree of `p`.
pub open spec fn outside_pred(p: Seq<char>) -> spec_fn(Seq<char>) -> bool {
    |e: Seq<char>| !in_subtree(e, p)
}

/// Holds of the entries strictly below `p`.
pub open spec fn below_pred(p: Seq<char>) -> spec_fn(Seq<char>) -> bool {
    |e: Seq<char>| is_below(e, p)
}

/// What follows `p/` in an entry below `p`.
pub open spec fn suffix_fn(p: Seq<char>) -> spec_fn(Seq<char>) -> Seq<char> {
    |e: Seq<char>| e.skip(p.len() + 1int)
}

/// Puts a suffix back under `p`.
pub open spec fn under_fn(p: Seq<char>) -> spec_fn(Seq<char>) -> Seq<char> {
    |x: Seq<char>| under(p, x)
}

/// The entries of `s` outside the subtree of `p`, in order.
pub open spec fn kept(s: Seq<Seq<char>>, p: Seq<char>) -> Seq<Seq<char>> {
    s.filter(outside_pred(p))
}

/// The entries of `s` strictly below `p`, in order.
pub open spec fn below(s: Seq<Seq<char>>, p: Seq<char>) -> Seq<Seq<char>> {
    s.filter(below_pred(p))
}

/// What follows `p/` in each entry of `s` strictly below `p`, in order.
pub open spec fn detached(s: Seq<Seq<char>>, p: Seq<char>) -> Seq<Seq<char>> {
    below(s, p).map_values(suffix_fn(p))
}

/// `p`, then each suffix of `pending` put back under `p`.
pub open spec fn reattached(p: Seq<char>, pending: Seq<Seq<char>>) -> Seq<Seq<char>> {
    seq![p] + pending.map_values(under_fn(p))
}

/// `s` without its first entry equal to `p` (unchanged where there is none).
pub open spec fn without_first(s: Seq<Seq<char>>, p: Seq<char>) -> Seq<Seq<char>>
    decreases s.len(),
{
    if s.len() == 0 {
        s
    } else if s[0] == p {
        s.drop_first()
    } else {
        seq![s[0]] + without_first(s.drop_first(), p)
    }
}

/// The chain `c` leads to a node of the trie built from the entries of `s`:
/// it is a leading part of the segments of some trimmed entry.
pub open spec fn store_has_chain(s: Seq<Seq<char>>, c: Seq<Seq<char>>) -> bool {
    exists|k: int| 0 <= k < s.len() && is_chain_prefix(c, segments(#[trigger] trimmed(s[k])))
}

/// `t` is a well-formed trie holding exactly the chains of `s`.
pub open spec fn is_trie_of(t: Node, s: Seq<Seq<char>>) -> bool {
    &&& t.wf()
    &&& forall|c: Seq<Seq<char>>| #[trigger] t.has_chain(c) == store_has_chain(s, c)
}

/// `rows` is the rendering of the trie built from `s`.
pub open spec fn rows_of_store(rows: Seq<(Seq<char>, Seq<char>)>, s: Seq<Seq<char>>) -> bool {
    exists|t: Node| is_trie_of(t, s) && rows == #[trigger] t.render(seq![], seq![])
}

proof fn lemma_filter_step(s: Seq<Seq<char>>, f: spec_fn(Seq<char>) -> bool, i: int)
    requires
        0 <= i < s.len(),
    ensures
        s.take(i + 1).filter(f) == if f(s[i]) {
            s.take(i).filter(f).push(s[i])
        } else {
            s.take(i).filter(f)
        },
{
    let t = s.take(i + 1);
    assert(t.drop_last() =~= s.take(i));
    assert(t.last() == s[i]);
    assert(t.len() > 0);
    reveal_with_fuel(Seq::<_>::filter, 1);
}

/// Removes every entry equal to `p` or starting with `p/`; the others keep
/// their order.
pub fn remove_subtree(paths: &mut Vec<String>, p: &str)
    ensures
        strings_view(final(paths)@) == kept(strings_view(old(paths)@), p@),
{
    let ghost sv = strings_view(paths@);
    let n = paths.len();
    let mut out: Vec<String> = Vec::new();
    let mut i: usize = 0;
    assert(sv.take(0) =~= seq![]);
    while i < n
        invariant
            n == paths.len(),
            sv == strings_view(paths@),
            i <= n,
            strings_view(out@) == sv.take(i as int).filter(outside_pred(p@)),
        decreases n - i,
    {
        let e = &paths[i];
        let is_eq = eq_str(e.as_str(), p);
        proof {
            lemma_filter_step(sv, outside_pred(p@), i as int);
        }
        if !(is_eq || starts_below(e.as_str(), p)) {
            let ghost before = out@;
            out.push(e.clone());
            assert(strings_view(out@) =~= strings_view(before).push(e@));
        }
        i = i + 1;
    }
    assert(sv.take(n as int) =~= sv);
    *paths = out;
}

proof fn lemma_without_first_at(s: Seq<Seq<char>>, p: Seq<char>, i: int)
    requires
        0 <= i <= s.len(),
        forall|j: int| 0 <= j < i ==> s[j] != p,
        i < s.len() ==> s[i] == p,
    ensures
        without_first(s, p) == if i < s.len() { s.remove(i) } else { s },
    decreases i,
{
    if i > 0 {
        lemma_without_first_at(s.drop_first(), p, i - 1);
        assert(s =~= seq![s[0]] + s.drop_first());
        if i < s.len() {
            assert(s.remove(i) =~= seq![s[0]] + s.drop_first().remove(i - 1));
        }
    } else if s.len() > 0 {
        assert(s.remove(0) =~= s.drop_first());
    }
}

/// Removes the first entry equal to `p`; returns whether there was one.
pub fn remove_exact(paths: &mut Vec<String>, p: &str) -> (r: bool)
    ensures
        r == strings_view(old(paths)@).contains(p@),
        strings_view(final(paths)@) == without_first(strings_view(old(paths)@), p@),
        !r ==> final(paths)@ == old(paths)@,
{
    let ghost sv = strings_view(paths@);
    let n = paths.len();
    let mut i: usize = 0;
    while i < n && !eq_str(paths[i].as_str(), p)
        invariant
            n == paths.len(),
            sv == strings_view(paths@),
            i <= n,
            forall|j: int| 0 <= j < i ==> sv[j] != p@,
        decreases n - i,
    {
        i = i + 1;
    }
    proof {
        lemma_without_first_at(sv, p@, i as int);
    }
    if i < n {
        paths.remove(i);
        assert(strings_view(paths@) =~= sv.remove(i as int));
        assert(sv[i as int] == p@);
        true
    } else {
        assert(!sv.contains(p@));
        false
    }
}

/// What follows `p/` in each entry below `p`, in order.
pub fn detach_below(paths: &Vec<String>, p: &str) -> (r: Vec<String>)
    ensures
        strings_view(r@) == detached(strings_view(paths@), p@),
{
    let ghost sv = strings_view(paths@);
    let n = paths.len();
    let mut out: Vec<String> = Vec::new();
    let mut i: usize = 0;
    assert(sv.take(0) =~= seq![]);
    while i < n
        invariant
            n == paths.len(),
            sv == strings_view(paths@),
            i <= n,
            strings_view(out@) == sv.take(i as int).filter(below_pred(p@)).map_values(suffix_fn(p@)),
        decreases n - i,
    {
        proof {
            lemma_filter_step(sv, below_pred(p@), i as int);
            assert(sv[i as int] == paths@[i as int]@);
            let x = sv.take(i as int).filter(below_pred(p@));
            assert(x.push(sv[i as int]).map_values(suffix_fn(p@)) =~= x.map_values(suffix_fn(p@)).push(
                suffix_fn(p@)(sv[i as int]),
            ));
        }
        if starts_below(paths[i].as_str(), p) {
            let piece = suffix_below(paths[i].as_str(), p);
            let ghost before = out@;
            out.push(piece);
            proof {
                let e = sv[i as int];
                assert(e.subrange(0, p@.len() as int) + seq!['/'] + e.skip(p@.len() + 1int) =~= e);
                assert(p@ + seq!['/'] + piece@ =~= p@ + seq!['/'] + e.skip(p@.len() + 1int));
                assert(piece@ =~= e.skip(p@.len() + 1int));
                assert(strings_view(out@) =~= sv.take(i + 1).filter(below_pred(p@)).map_values(suffix_fn(p@)));
            }
        } else {
            assert(strings_view(out@) =~= sv.take(i + 1).filter(below_pred(p@)).map_values(suffix_fn(p@)));
        }
        i = i + 1;
    }
    assert(sv.take(n as int) =~= sv);
    out
}

/// Appends `p` and then each suffix of `pending` put back under `p`.
pub fn reattach(paths: &mut Vec<String>, p: &str, pending: &Vec<String>)
    ensures
        strings_view(final(paths)@) == strings_view(old(paths)@) + reattached(
            p@,
            strings_view(pending@),
        ),
{
    let ghost start = strings_view(paths@);
    let ghost pv = strings_view(pending@);
    paths.push(String::from_str(p));
    let n = pending.len();
    let mut i: usize = 0;
    assert(strings_view(paths@) =~= start + reattached(p@, pv.take(0)));
    while i < n
        invariant
            n == pending.len(),
            pv == strings_view(pending@),
            i <= n,
            strings_view(paths@) == start + reattached(p@, pv.take(i as int)),
        decreases n - i,
    {
        let child = path_under(p, pending[i].as_str());
        let ghost before = paths@;
        let ghost cv = child@;
        paths.push(child);
        assert(strings_view(paths@) =~= strings_view(before).push(cv));
        assert(pv.take(i + 1) =~= pv.take(i as int).push(pv[i as int]));
        assert(pv[i as int] == pending@[i as int]@);
        assert(pv.take(i + 1).map_values(under_fn(p@)) =~= pv.take(i as int).map_values(
            under_fn(p@),
        ).push(under(p@, pv[i as int])));
        assert(strings_view(paths@) =~= start + reattached(p@, pv.take(i + 1)));
        i = i + 1;
    }
    assert(pv.take(n as int) =~= pv);
}

/// The rows of the trie built from every entry of `paths`: each entry is
/// trimmed and split at `/`, empty segments dropped.
pub fn build_rows(paths: &Vec<String>) -> (r: Vec<(String, String)>)
    ensures
        rows_of_store(rows_view(r@), strings_view(paths@)),
{
    let ghost sv = strings_view(paths@);
    let n = paths.len();
    let mut root = Node::new();
    let mut k: usize = 0;
    while k < n
        invariant
            n == paths.len(),
            sv == strings_view(paths@),
            k <= n,
            is_trie_of(root, sv.take(k as int)),
        decreases n - k,
    {
        let t = trim_str(paths[k].as_str());
        let parts = split_segments(t);
        let ghost old_root = root;
        let sl = parts.as_slice();
        root.insert(sl);
        proof {
            assert(sl@ == parts@);
            assert forall|c: Seq<Seq<char>>|
                #[trigger] root.has_chain(c) == store_has_chain(sv.take(k + 1), c) by {
                if store_has_chain(sv.take(k + 1), c) {
                    let j = choose|j: int|
                        0 <= j < sv.take(k + 1).len() && is_chain_prefix(
                            c,
                            segments(#[trigger] trimmed(sv.take(k + 1)[j])),
                        );
                    if j < k {
                        assert(sv.take(k as int)[j] == sv.take(k + 1)[j]);
                    }
                }
                if store_has_chain(sv.take(k as int), c) {
                    let j = choose|j: int|
                        0 <= j < sv.take(k as int).len() && is_chain_prefix(
                            c,
                            segments(#[trigger] trimmed(sv.take(k as int)[j])),
                        );
                    assert(sv.take(k as int)[j] == sv.take(k + 1)[j]);
                }
                if is_chain_prefix(c, segments(trimmed(sv[k as int]))) {
                    assert(sv.take(k + 1)[k as int] == sv[k as int]);
                }
            }
        }
        k = k + 1;
    }
    let mut rows: Vec<(String, String)> = Vec::new();
    proof {
        reveal_strlit("");
    }
    root.generate_tree_data("", "", &mut rows);
    assert(sv.take(n as int) =~= sv);
    assert(""@ =~= Seq::<char>::empty());
    assert(rows_view(rows@) =~= root.render(seq![], seq![]));
    rows
}

proof fn lemma_store_split(s: Seq<Seq<char>>, p: Seq<char>)
    ensures
        forall|x: Seq<char>|
            #[trigger] s.to_multiset().count(x) == kept(s, p).to_multiset().count(x) + below(
                s,
                p,
            ).to_multiset().count(x) + (if x == p { s.to_multiset().count(p) } else { 0 }),
        forall|x: Seq<char>| in_subtree(x, p) ==> #[trigger] kept(s, p).to_multiset().count(x) == 0,
        forall|x: Seq<char>| !is_below(x, p) ==> #[trigger] below(s, p).to_multiset().count(x) == 0,
    decreases s.len(),
{
    broadcast use vstd::multiset::group_multiset_axioms;

    reveal_with_fuel(Seq::<_>::filter, 1);
    if s.len() == 0 {
        assert(kept(s, p) =~= seq![]);
        assert(below(s, p) =~= seq![]);
    } else {
        let t = s.drop_last();
        let e = s.last();
        lemma_store_split(t, p);
        assert(s =~= t.push(e));
        assert(s.to_multiset() =~= t.to_multiset().insert(e));
        if outside_pred(p)(e) {
            assert(kept(s, p) == kept(t, p).push(e));
            assert(below(s, p) == below(t, p));
        } else if below_pred(p)(e) {
            assert(kept(s, p) == kept(t, p));
            assert(below(s, p) == below(t, p).push(e));
        } else {
            assert(kept(s, p) == kept(t, p));
            assert(below(s, p) == below(t, p));
        }
    }
}

proof fn lemma_reattach_detached(s: Seq<Seq<char>>, p: Seq<char>)
    ensures
        reattached(p, detached(s, p)) == seq![p] + below(s, p),
{
    let b = below(s, p);
    broadcast use vstd::seq_lib::group_filter_ensures;

    assert forall|i: int| 0 <= i < b.len() implies #[trigger] under(p, suffix_fn(p)(b[i])) == b[i] by {
        assert(below_pred(p)(b[i]));
        assert(b[i] =~= b[i].subrange(0, p.len() as int) + seq!['/'] + b[i].skip(p.len() + 1int));
        assert(under(p, suffix_fn(p)(b[i])) =~= b[i]);
    }
    assert(detached(s, p).map_values(under_fn(p)) =~= b);
}

/// Detaching the subtree of `p` and reattaching it under the same name gives
/// back the entries one started from, as a multiset, where `p` was stored
/// exactly once. This is what cancelling a rename does.
pub proof fn lemma_edit_cancel_restores(s: Seq<Seq<char>>, p: Seq<char>)
    requires
        s.to_multiset().count(p) == 1,
    ensures
        (kept(s, p) + reattached(p, detached(s, p))).to_multiset() == s.to_multiset(),
{
    broadcast use vstd::multiset::group_multiset_axioms;
    broadcast use vstd::seq_lib::lemma_multiset_commutative;

    lemma_store_split(s, p);
    lemma_reattach_detached(s, p);
    let k = kept(s, p);
    let b = below(s, p);
    assert(k + (seq![p] + b) =~= (k + seq![p]) + b);
    assert(seq![p] =~= Seq::<Seq<char>>::empty().push(p));
    assert(seq![p].to_multiset() =~= Multiset::<Seq<char>>::empty().insert(p));
    assert((k + (seq![p] + b)).to_multiset() =~= s.to_multiset());
}

/// Committing a rename of `p` to the same name `p` gives back the entries one
/// started from, as a multiset, where `p` was stored exactly once.
pub proof fn lemma_edit_commit_same_name_restores(s: Seq<Seq<char>>, p: Seq<char>)
    requires
        s.to_multiset().count(p) == 1,
    ensures
        (kept(s, p) + reattached(p, detached(s, p))).to_multiset() == s.to_multiset(),
{
    lemma_edit_cancel_restores(s, p);
}

/// Removing the subtree of `p` leaves no entry equal to `p` or below it, and
/// every other entry as many times as before.
pub proof fn lemma_remove_subtree_exact(s: Seq<Seq<char>>, p: Seq<char>)
    ensures
        forall|i: int| 0 <= i < kept(s, p).len() ==> !in_subtree(#[trigger] kept(s, p)[i], p),
        forall|x: Seq<char>|
            !in_subtree(x, p) ==> #[trigger] kept(s, p).to_multiset().count(x)
                == s.to_multiset().count(x),
{
    broadcast use vstd::seq_lib::group_filter_ensures;

    lemma_store_split(s, p);
}

/// The rows built from a store depend only on which strings it holds: not on
/// their order, nor on how many times each is there.
pub proof fn lemma_rows_independent_of_order(
    s1: Seq<Seq<char>>,
    s2: Seq<Seq<char>>,
    r1: Seq<(Seq<char>, Seq<char>)>,
    r2: Seq<(Seq<char>, Seq<char>)>,
)
    requires
        forall|e: Seq<char>| s1.contains(e) == s2.contains(e),
        rows_of_store(r1, s1),
        rows_of_store(r2, s2),
    ensures
        r1 == r2,
{
    let t1 = choose|t: Node| is_trie_of(t, s1) && r1 == #[trigger] t.render(seq![], seq![]);
    let t2 = choose|t: Node| is_trie_of(t, s2) && r2 == #[trigger] t.render(seq![], seq![]);
    assert forall|c: Seq<Seq<char>>| #[trigger] t1.has_chain(c) == t2.has_chain(c) by {
        if store_has_chain(s1, c) {
            let k = choose|k: int|
                0 <= k < s1.len() && is_chain_prefix(c, segments(#[trigger] trimmed(s1[k])));
            assert(s1.contains(s1[k]));
            let m = choose|m: int| 0 <= m < s2.len() && s2[m] == s1[k];
            assert(is_chain_prefix(c, segments(trimmed(s2[m]))));
        }
        if store_has_chain(s2, c) {
            let k = choose|k: int|
                0 <= k < s2.len() && is_chain_prefix(c, segments(#[trigger] trimmed(s2[k])));
            assert(s2.contains(s2[k]));
            let m = choose|m: int| 0 <= m < s1.len() && s1[m] == s2[k];
            assert(is_chain_prefix(c, segments(trimmed(s1[m]))));
        }
    }
    t1.lemma_same_chains_same_rows(t2, seq![], seq![], 0);
}

} // verus!
