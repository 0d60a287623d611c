//! The mutation engine: writes translated text back at decoded key paths.

use vstd::prelude::*;
use crate::document::{
    Document, Member, Tree, entries_of, find_entry, find_entry_from, find_key, find_member,
    lemma_entries_of, lemma_find_entry_bounds, lemma_find_entry_matches, lemma_trees_of,
    tree_at, trees_of,
};
use crate::path::{PathStep, Step, decode, decode_path, steps_view};

verus! {

/// A node that holds no other nodes.
pub open spec fn is_scalar(t: Tree) -> bool {
    !(t is List || t is Object)
}

fn scalar_node(d: &Document) -> (r: bool)
    ensures
        r == is_scalar(d@),
{
    match d {
        Document::List(_) => false,
        Document::Object(_) => false,
        _ => true,
    }
}

/// The tree with the value at `steps` replaced by the text `s`, or `None`
/// when the steps do not lead to an existing scalar: a field step needs a
/// mapping with that key, an index step a list with that index in bounds,
/// and the value reached last must be neither a list nor a mapping.
pub open spec fn set_tree(t: Tree, steps: Seq<PathStep>, s: Seq<char>) -> Option<Tree>
    decreases steps.len(),
{
    if steps.len() == 0 {
        None
    } else {
        match steps[0] {
            PathStep::Field(k) => match t {
                Tree::Object(es) => match find_entry(es, k) {
                    Some(j) => if steps.len() == 1 {
                        if is_scalar(es[j].1) {
                            Some(Tree::Object(es.update(j, (es[j].0, Tree::Text(s)))))
                        } else {
                            None
                        }
                    } else {
                        match set_tree(es[j].1, steps.drop_first(), s) {
                            Some(c) => Some(Tree::Object(es.update(j, (es[j].0, c)))),
                            None => None,
                        }
                    },
                    None => None,
                },
                _ => None,
            },
            PathStep::Index(n) => match t {
                Tree::List(xs) => if n < xs.len() {
                    if steps.len() == 1 {
                        if is_scalar(xs[n as int]) {
                            Some(Tree::List(xs.update(n as int, Tree::Text(s))))
                        } else {
                            None
                        }
                    } else {
                        match set_tree(xs[n as int], steps.drop_first(), s) {
                            Some(c) => Some(Tree::List(xs.update(n as int, c))),
                            None => None,
                        }
                    }
                } else {
                    None
                },
                _ => None,
            },
            PathStep::Malformed => None,
        }
    }
}

/// The tree after writing `s` at the key path `path`; `None` when the path
/// does not resolve.
pub open spec fn set_path(t: Tree, path: Seq<char>, s: Seq<char>) -> Option<Tree> {
    set_tree(t, decode(path), s)
}

proof fn lemma_entries_update(a: Seq<Member>, b: Seq<Member>, j: int)
    requires
        a.len() == b.len(),
        0 <= j < a.len(),
        forall|i: int| 0 <= i < a.len() && i != j ==> a[i] == b[i],
    ensures
        entries_of(b, b.len()) == entries_of(a, a.len()).update(j, (b[j].key@, b[j].value@)),
{
    lemma_entries_of(a, a.len());
    lemma_entries_of(b, b.len());
    assert(entries_of(b, b.len()) =~= entries_of(a, a.len()).update(j, (b[j].key@, b[j].value@)));
}

proof fn lemma_trees_update(a: Seq<Document>, b: Seq<Document>, j: int)
    requires
        a.len() == b.len(),
        0 <= j < a.len(),
        forall|i: int| 0 <= i < a.len() && i != j ==> a[i] == b[i],
    ensures
        trees_of(b, b.len()) == trees_of(a, a.len()).update(j, b[j]@),
{
    lemma_trees_of(a, a.len());
    lemma_trees_of(b, b.len());
    assert(trees_of(b, b.len()) =~= trees_of(a, a.len()).update(j, b[j]@));
}

/// Writes `text` at `steps[pos..]` inside `d`.
fn set_at(d: &mut Document, steps: &Vec<Step>, pos: usize, text: &str) -> (r: bool)
    requires
        pos < steps@.len(),
    ensures
        match set_tree(old(d)@, steps_view(steps@).subrange(pos as int, steps@.len() as int), text@) {
            Some(t) => r && final(d)@ == t,
            None => !r && final(d)@ == old(d)@,
        },
    decreases steps@.len() - pos,
{
    let ghost rest = steps_view(steps@).subrange(pos as int, steps@.len() as int);
    let ghost t0 = d@;
    let last = pos == steps.len() - 1;
    proof {
        assert(rest.drop_first() =~= steps_view(steps@).subrange(pos + 1, steps@.len() as int));
        assert(rest[0] == steps@[pos as int]@);
    }
    match &steps[pos] {
        Step::Field(k) => match d {
            Document::Object(ms) => {
                let ghost old_ms = ms@;
                proof {
                    lemma_find_entry_matches(old_ms, k@, 0);
                    lemma_entries_of(old_ms, old_ms.len());
                }
                match find_member(ms, k.as_str()) {
                    Some(j) => {
                        let mut m = ms.remove(j);
                        let ok = if last {
                            if scalar_node(&m.value) {
                                m.value = Document::Text(text.to_string());
                                true
                            } else {
                                false
                            }
                        } else {
                            set_at(&mut m.value, steps, pos + 1, text)
                        };
                        ms.insert(j, m);
                        proof {
                            lemma_entries_update(old_ms, ms@, j as int);
                            assert(ok ==> ms@ =~= old_ms.update(j as int, ms@[j as int]));
                            if !ok {
                                assert(entries_of(old_ms, old_ms.len()).update(j as int, (ms@[j as int].key@, ms@[j as int].value@)) =~= entries_of(old_ms, old_ms.len()));
                            }
                        }
                        ok
                    },
                    None => false,
                }
            },
            _ => false,
        },
        Step::Index(i) => match d {
            Document::List(xs) => {
                let ghost old_xs = xs@;
                proof {
                    lemma_trees_of(old_xs, old_xs.len());
                }
                if *i < xs.len() {
                    let mut x = xs.remove(*i);
                    let ok = if last {
                        if scalar_node(&x) {
                            x = Document::Text(text.to_string());
                            true
                        } else {
                            false
                        }
                    } else {
                        set_at(&mut x, steps, pos + 1, text)
                    };
                    xs.insert(*i, x);
                    proof {
                        lemma_trees_update(old_xs, xs@, *i as int);
                        if !ok {
                            assert(trees_of(old_xs, old_xs.len()).update(*i as int, xs@[*i as int]@) =~= trees_of(old_xs, old_xs.len()));
                        }
                    }
                    ok
                } else {
                    false
                }
            },
            _ => false,
        },
        Step::Malformed => false,
    }
}

/// Writes `new_value` at the key path `key_path` of `doc`. Returns whether
/// the path resolved; when it does not, `doc` is left as it was.
pub fn update_json_value(doc: &mut Document, key_path: &str, new_value: &str) -> (r: bool)
    ensures
        match set_path(old(doc)@, key_path@, new_value@) {
            Some(t) => r && final(doc)@ == t,
            None => !r && final(doc)@ == old(doc)@,
        },
{
    let steps = decode_path(key_path);
    if steps.len() == 0 {
        return false;
    }
    proof {
        assert(steps_view(steps@).subrange(0, steps@.len() as int) =~= steps_view(steps@));
    }
    set_at(doc, &steps, 0, new_value)
}

/// The edits as pairs of key path and text.
pub open spec fn edits_view(edits: Seq<(String, String)>) -> Seq<(Seq<char>, Seq<char>)> {
    edits.map_values(|e: (String, String)| (e.0@, e.1@))
}

/// The tree after applying `edits` in order, and the paths of the edits
/// that did not resolve, in order. A failed edit changes nothing.
pub open spec fn apply_all(t: Tree, edits: Seq<(Seq<char>, Seq<char>)>) -> (Tree, Seq<Seq<char>>)
    decreases edits.len(),
{
    if edits.len() == 0 {
        (t, Seq::empty())
    } else {
        let (m, failed) = apply_all(t, edits.drop_last());
        match set_path(m, edits.last().0, edits.last().1) {
            Some(u) => (u, failed),
            None => (m, failed.push(edits.last().0)),
        }
    }
}

/// Applies each edit (key path, new text) to `doc` in order, and returns the
/// key paths of the edits that did not resolve; the others still apply.
pub fn apply_edits(doc: &mut Document, edits: &Vec<(String, String)>) -> (failed: Vec<String>)
    ensures
        final(doc)@ == apply_all(old(doc)@, edits_view(edits@)).0,
        failed@.map_values(|s: String| s@) == apply_all(old(doc)@, edits_view(edits@)).1,
{
    let ghost t0 = doc@;
    let mut failed: Vec<String> = Vec::new();
    let mut i: usize = 0;
    while i < edits.len()
        invariant
            0 <= i <= edits@.len(),
            doc@ == apply_all(t0, edits_view(edits@.subrange(0, i as int))).0,
            failed@.map_values(|s: String| s@) == apply_all(t0, edits_view(edits@.subrange(0, i as int))).1,
        decreases edits.len() - i,
    {
        let ghost pre = edits_view(edits@.subrange(0, i as int));
        let ghost next = edits_view(edits@.subrange(0, i + 1));
        proof {
            assert(next.drop_last() =~= pre);
            assert(next.last() == (edits@[i as int].0@, edits@[i as int].1@));
        }
        let ok = update_json_value(doc, edits[i].0.as_str(), edits[i].1.as_str());
        if !ok {
            let ghost before = failed@;
            failed.push(edits[i].0.clone());
            proof {
                assert(failed@.map_values(|s: String| s@) =~= before.map_values(|s: String| s@).push(edits@[i as int].0@));
            }
        }
        i = i + 1;
    }
    proof {
        assert(edits@.subrange(0, edits@.len() as int) =~= edits@);
    }
    failed
}

proof fn lemma_find_entry_first(es: Seq<(Seq<char>, Tree)>, k: Seq<char>, j: int, i: int)
    requires
        0 <= i <= j < es.len(),
        es[j].0 == k,
        forall|q: int| i <= q < j ==> es[q].0 != k,
    ensures
        find_entry_from(es, k, i) == Some(j),
    decreases j - i,
{
    if i < j {
        lemma_find_entry_first(es, k, j, i + 1);
    }
}

/// Writing the same text at the same steps twice leaves the tree as one
/// write does.
pub proof fn lemma_set_idempotent(t: Tree, steps: Seq<PathStep>, s: Seq<char>)
    requires
        set_tree(t, steps, s) is Some,
    ensures
        set_tree(set_tree(t, steps, s)->0, steps, s) == set_tree(t, steps, s),
    decreases steps.len(),
{
    let u = set_tree(t, steps, s)->0;
    match steps[0] {
        PathStep::Field(k) => {
            let es = t->Object_0;
            let j = find_entry(es, k)->0;
            lemma_find_entry_bounds(es, k, 0);
            let c = if steps.len() == 1 {
                Tree::Text(s)
            } else {
                set_tree(es[j].1, steps.drop_first(), s)->0
            };
            let es2 = es.update(j, (es[j].0, c));
            assert(u == Tree::Object(es2));
            lemma_find_entry_first(es2, k, j, 0);
            if steps.len() > 1 {
                lemma_set_idempotent(es[j].1, steps.drop_first(), s);
            }
            assert(es2.update(j, (es2[j].0, c)) =~= es2);
        },
        PathStep::Index(n) => {
            let xs = t->List_0;
            let c = if steps.len() == 1 {
                Tree::Text(s)
            } else {
                set_tree(xs[n as int], steps.drop_first(), s)->0
            };
            let xs2 = xs.update(n as int, c);
            assert(u == Tree::List(xs2));
            if steps.len() > 1 {
                lemma_set_idempotent(xs[n as int], steps.drop_first(), s);
            }
            assert(xs2.update(n as int, c) =~= xs2);
        },
        PathStep::Malformed => {},
    }
}

/// Applying the same edit twice gives the document that applying it once
/// gives.
pub proof fn lemma_edit_idempotent(t: Tree, edit: (Seq<char>, Seq<char>))
    ensures
        apply_all(t, seq![edit, edit]).0 == apply_all(t, seq![edit]).0,
{
    assert(seq![edit, edit].drop_last() =~= seq![edit]);
    assert(seq![edit].drop_last() =~= Seq::<(Seq<char>, Seq<char>)>::empty());
    let empty = Seq::<(Seq<char>, Seq<char>)>::empty();
    assert(apply_all(t, empty) == (t, Seq::<Seq<char>>::empty()));
    let one = apply_all(t, seq![edit]);
    assert(seq![edit].last() == edit);
    assert(seq![edit, edit].last() == edit);
    assert(one.0 == match set_path(t, edit.0, edit.1) {
        Some(u) => u,
        None => t,
    });
    if set_path(t, edit.0, edit.1) is Some {
        lemma_set_idempotent(t, decode(edit.0), edit.1);
    }
    assert(apply_all(t, seq![edit, edit]).0 == match set_path(one.0, edit.0, edit.1) {
        Some(u) => u,
        None => one.0,
    });
}

proof fn lemma_failed_prefix(t: Tree, a: Seq<(Seq<char>, Seq<char>)>, b: Seq<(Seq<char>, Seq<char>)>)
    ensures
        apply_all(t, a).1.len() <= apply_all(t, a + b).1.len(),
        apply_all(t, a + b).1.subrange(0, apply_all(t, a).1.len() as int) == apply_all(t, a).1,
    decreases b.len(),
{
    if b.len() == 0 {
        assert(a + b =~= a);
        assert(apply_all(t, a).1.subrange(0, apply_all(t, a).1.len() as int) =~= apply_all(t, a).1);
    } else {
        lemma_failed_prefix(t, a, b.drop_last());
        assert((a + b).drop_last() =~= a + b.drop_last());
        let f = apply_all(t, a + b.drop_last()).1;
        let g = apply_all(t, a + b).1;
        assert(g.subrange(0, apply_all(t, a).1.len() as int) =~= f.subrange(0, apply_all(t, a).1.len() as int));
    }
}

/// An edit whose path does not resolve is reported, alone, as failed, and
/// the edits around it apply exactly as they would without it.
pub proof fn lemma_failed_edit_isolated(
    t: Tree,
    before: Seq<(Seq<char>, Seq<char>)>,
    bad: (Seq<char>, Seq<char>),
    after: Seq<(Seq<char>, Seq<char>)>,
)
    requires
        set_path(apply_all(t, before).0, bad.0, bad.1) is None,
    ensures
        apply_all(t, before.push(bad) + after).0 == apply_all(t, before + after).0,
        apply_all(t, before.push(bad) + after).1 == apply_all(t, before).1.push(bad.0) + apply_all(
            t,
            before + after,
        ).1.subrange(apply_all(t, before).1.len() as int, apply_all(t, before + after).1.len() as int),
    decreases after.len(),
{
    let f0 = apply_all(t, before).1;
    lemma_failed_prefix(t, before, after);
    if after.len() == 0 {
        assert(before.push(bad) + after =~= before.push(bad));
        assert(before + after =~= before);
        assert(before.push(bad).drop_last() =~= before);
        assert(f0.subrange(f0.len() as int, f0.len() as int) =~= Seq::<Seq<char>>::empty());
        assert(f0.push(bad.0) + Seq::<Seq<char>>::empty() =~= f0.push(bad.0));
    } else {
        let a2 = after.drop_last();
        lemma_failed_edit_isolated(t, before, bad, a2);
        lemma_failed_prefix(t, before, a2);
        assert((before.push(bad) + after).drop_last() =~= before.push(bad) + a2);
        assert((before + after).drop_last() =~= before + a2);
        assert((before.push(bad) + after).last() == after.last());
        assert((before + after).last() == after.last());
        let fy = apply_all(t, before + a2).1;
        let gy = apply_all(t, before + after).1;
        assert(gy.subrange(f0.len() as int, gy.len() as int) =~= fy.subrange(f0.len() as int, fy.len() as int) + gy.subrange(fy.len() as int, gy.len() as int));
        assert(f0.push(bad.0) + gy.subrange(f0.len() as int, gy.len() as int) =~= (f0.push(bad.0) + fy.subrange(f0.len() as int, fy.len() as int)) + gy.subrange(fy.len() as int, gy.len() as int));
    }
}

/// `steps` lead, inside `t`, to an existing scalar: a place a write may use.
pub open spec fn resolves(t: Tree, steps: Seq<PathStep>) -> bool {
    steps.len() > 0 && (tree_at(t, steps) matches Some(l) && is_scalar(l))
}

proof fn lemma_set_iff_resolves(t: Tree, steps: Seq<PathStep>, s: Seq<char>)
    ensures
        (set_tree(t, steps, s) is Some) == resolves(t, steps),
    decreases steps.len(),
{
    if steps.len() > 0 {
        let rest = steps.drop_first();
        match steps[0] {
            PathStep::Field(k) => {
                if let Tree::Object(es) = t {
                    if let Some(j) = find_entry(es, k) {
                        if steps.len() > 1 {
                            lemma_set_iff_resolves(es[j].1, rest, s);
                        } else {
                            assert(rest.len() == 0);
                            assert(tree_at(es[j].1, rest) == Some(es[j].1));
                        }
                    }
                }
            },
            PathStep::Index(n) => {
                if let Tree::List(xs) = t {
                    if n < xs.len() {
                        if steps.len() > 1 {
                            lemma_set_iff_resolves(xs[n as int], rest, s);
                        } else {
                            assert(rest.len() == 0);
                            assert(tree_at(xs[n as int], rest) == Some(xs[n as int]));
                        }
                    }
                }
            },
            PathStep::Malformed => {},
        }
    }
}

proof fn lemma_tree_at_scalar(l: Tree, p: Seq<PathStep>)
    requires
        is_scalar(l),
        p.len() > 0,
    ensures
        tree_at(l, p) is None,
{
}

/// Writing text at one place changes no answer to "does this path lead to
/// a scalar": a scalar stays a scalar, and nothing else moves.
pub proof fn lemma_write_keeps_resolution(t: Tree, p1: Seq<PathStep>, s: Seq<char>, p2: Seq<PathStep>)
    requires
        set_tree(t, p1, s) is Some,
    ensures
        resolves(set_tree(t, p1, s)->0, p2) == resolves(t, p2),
    decreases p1.len(),
{
    let u = set_tree(t, p1, s)->0;
    if p2.len() == 0 {
        return;
    }
    match p1[0] {
        PathStep::Field(k) => {
            let es = t->Object_0;
            let j = find_entry(es, k)->0;
            lemma_find_entry_bounds(es, k, 0);
            let c = if p1.len() == 1 {
                Tree::Text(s)
            } else {
                set_tree(es[j].1, p1.drop_first(), s)->0
            };
            let es2 = es.update(j, (es[j].0, c));
            assert(u == Tree::Object(es2));
            match p2[0] {
                PathStep::Field(k2) => {
                    assert forall|i: int| 0 <= i < es.len() implies es2[i].0 == es[i].0 by {}
                    lemma_find_entry_same_keys(es, es2, k2, 0);
                    let j2 = find_entry(es, k2);
                    let r2 = p2.drop_first();
                    assert(tree_at(u, p2) == match find_entry(es2, k2) {
                        Some(x) => tree_at(es2[x].1, r2),
                        None => None,
                    });
                    assert(tree_at(t, p2) == match find_entry(es, k2) {
                        Some(x) => tree_at(es[x].1, r2),
                        None => None,
                    });
                    if let Some(jj) = j2 {
                        lemma_find_entry_bounds(es, k2, 0);
                        if jj != j {
                            assert(es2[jj] == es[jj]);
                        }
                        if jj == j {
                            if p1.len() == 1 {
                                if p2.len() > 1 {
                                    lemma_tree_at_scalar(es[j].1, p2.drop_first());
                                    lemma_tree_at_scalar(c, p2.drop_first());
                                } else {
                                    assert(p2.drop_first().len() == 0);
                                }
                            } else {
                                lemma_write_keeps_resolution(es[j].1, p1.drop_first(), s, p2.drop_first());
                                if p2.len() == 1 {
                                    lemma_set_iff_resolves(es[j].1, p1.drop_first(), s);
                                    lemma_node_kind_kept(es[j].1, p1.drop_first(), s);
                                    assert(p2.drop_first().len() == 0);
                                }
                            }
                        }
                    }
                },
                _ => {},
            }
        },
        PathStep::Index(n) => {
            let xs = t->List_0;
            let c = if p1.len() == 1 {
                Tree::Text(s)
            } else {
                set_tree(xs[n as int], p1.drop_first(), s)->0
            };
            let xs2 = xs.update(n as int, c);
            assert(u == Tree::List(xs2));
            match p2[0] {
                PathStep::Index(n2) => {
                    let r2 = p2.drop_first();
                    assert(tree_at(u, p2) == if n2 < xs2.len() {
                        tree_at(xs2[n2 as int], r2)
                    } else {
                        None
                    });
                    assert(tree_at(t, p2) == if n2 < xs.len() {
                        tree_at(xs[n2 as int], r2)
                    } else {
                        None
                    });
                    if n2 != n && n2 < xs.len() {
                        assert(xs2[n2 as int] == xs[n2 as int]);
                    }
                    if n2 == n {
                        if p1.len() == 1 {
                            if p2.len() > 1 {
                                lemma_tree_at_scalar(xs[n as int], p2.drop_first());
                                lemma_tree_at_scalar(c, p2.drop_first());
                            } else {
                                assert(p2.drop_first().len() == 0);
                            }
                        } else {
                            lemma_write_keeps_resolution(xs[n as int], p1.drop_first(), s, p2.drop_first());
                            if p2.len() == 1 {
                                lemma_node_kind_kept(xs[n as int], p1.drop_first(), s);
                                assert(p2.drop_first().len() == 0);
                            }
                        }
                    }
                },
                _ => {},
            }
        },
        PathStep::Malformed => {},
    }
}

proof fn lemma_node_kind_kept(t: Tree, p: Seq<PathStep>, s: Seq<char>)
    requires
        p.len() > 0,
        set_tree(t, p, s) is Some,
    ensures
        !is_scalar(t),
        !is_scalar(set_tree(t, p, s)->0),
{
}

proof fn lemma_find_entry_same_keys(a: Seq<(Seq<char>, Tree)>, b: Seq<(Seq<char>, Tree)>, k: Seq<char>, i: int)
    requires
        a.len() == b.len(),
        forall|q: int| 0 <= q < a.len() ==> b[q].0 == a[q].0,
    ensures
        find_entry_from(b, k, i) == find_entry_from(a, k, i),
    decreases a.len() - i,
{
    if 0 <= i < a.len() {
        lemma_find_entry_same_keys(a, b, k, i + 1);
    }
}

/// The paths of the first `n` edits that do not resolve in `t`, in order.
pub open spec fn unresolved(t: Tree, edits: Seq<(Seq<char>, Seq<char>)>) -> Seq<Seq<char>>
    decreases edits.len(),
{
    if edits.len() == 0 {
        Seq::empty()
    } else {
        let prev = unresolved(t, edits.drop_last());
        if resolves(t, decode(edits.last().0)) {
            prev
        } else {
            prev.push(edits.last().0)
        }
    }
}

/// In a batch, an edit fails exactly when its path does not resolve in the
/// document as it was before the batch: the edits that resolve never stop
/// one another, and the failed paths are exactly the others, in order.
pub proof fn lemma_failures_are_unresolved_paths(t: Tree, edits: Seq<(Seq<char>, Seq<char>)>)
    ensures
        apply_all(t, edits).1 == unresolved(t, edits),
        forall|p: Seq<PathStep>| #[trigger] resolves(apply_all(t, edits).0, p) == resolves(t, p),
    decreases edits.len(),
{
    if edits.len() > 0 {
        lemma_failures_are_unresolved_paths(t, edits.drop_last());
        let m = apply_all(t, edits.drop_last()).0;
        let e = edits.last();
        lemma_set_iff_resolves(m, decode(e.0), e.1);
        assert(resolves(m, decode(e.0)) == resolves(t, decode(e.0)));
        if set_path(m, e.0, e.1) is Some {
            assert forall|p: Seq<PathStep>| #[trigger] resolves(apply_all(t, edits).0, p) == resolves(t, p) by {
                lemma_write_keeps_resolution(m, decode(e.0), e.1, p);
                assert(resolves(m, p) == resolves(t, p));
            }
        }
    }
}

} // verus!
