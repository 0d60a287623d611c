//! The generic document tree that extraction walks and mutation rewrites.

use vstd::prelude::*;
use crate::path::PathStep;

verus! {

/// One node of a parsed data document.
#[derive(Debug)]
pub enum Document {
    Null,
    Bool(bool),
    /// A number that fits in an `i64`.
    Int(i64),
    /// Any other number, kept as its decimal text.
    Number(String),
    Text(String),
    List(Vec<Document>),
    Object(Vec<Member>),
}

/// One key of a mapping node with its value.
#[derive(Debug)]
pub struct Member {
    pub key: String,
    pub value: Document,
}

/// Index of the first member at or after `i` named `k`, if any.
pub open spec fn find_from(ms: Seq<Member>, k: Seq<char>, i: int) -> Option<int>
    decreases ms.len() - i,
{
    if i < 0 || i >= ms.len() {
        None
    } else if ms[i].key@ == k {
        Some(i)
    } else {
        find_from(ms, k, i + 1)
    }
}

/// Index of the first member named `k`, if any.
pub open spec fn find_key(ms: Seq<Member>, k: Seq<char>) -> Option<int> {
    find_from(ms, k, 0)
}

pub proof fn lemma_find_from_in_range(ms: Seq<Member>, k: Seq<char>, i: int)
    ensures
        find_from(ms, k, i) matches Some(j) ==> 0 <= i <= j < ms.len() && ms[j].key@ == k,
    decreases ms.len() - i,
{
    if 0 <= i < ms.len() && ms[i].key@ != k {
        lemma_find_from_in_range(ms, k, i + 1);
    }
}

/// Whether the two texts are equal.
pub fn same_text(s: &str, t: &str) -> (r: bool)
    ensures
        r == (s@ == t@),
{
    let n = s.unicode_len();
    if n != t.unicode_len() {
        return false;
    }
    let mut i: usize = 0;
    while i < n
        invariant
            n == s@.len() == t@.len(),
            0 <= i <= n,
            forall|j: int| 0 <= j < i ==> s@[j] == t@[j],
        decreases n - i,
    {
        if s.get_char(i) != t.get_char(i) {
            return false;
        }
        i = i + 1;
    }
    assert(s@ =~= t@);
    true
}

/// The index of the first member named `k`.
pub fn find_member(ms: &Vec<Member>, k: &str) -> (r: Option<usize>)
    ensures
        r matches Some(j) ==> find_key(ms@, k@) == Some(j as int),
        r is None ==> find_key(ms@, k@) is None,
        r matches Some(j) ==> j < ms@.len() && ms@[j as int].key@ == k@,
{
    let mut i: usize = 0;
    while i < ms.len()
        invariant
            0 <= i <= ms@.len(),
            find_key(ms@, k@) == find_from(ms@, k@, i as int),
        decreases ms.len() - i,
    {
        if same_text(ms[i].key.as_str(), k) {
            return Some(i);
        }
        i = i + 1;
    }
    None
}

/// A document as contracts see it: strings as character sequences.
pub ghost enum Tree {
    Null,
    Bool(bool),
    Int(i64),
    Number(Seq<char>),
    Text(Seq<char>),
    List(Seq<Tree>),
    Object(Seq<(Seq<char>, Tree)>),
}

/// The tree of a document.
pub open spec fn tree_of(d: Document) -> Tree
    decreases d,
{
    match d {
        Document::Null => Tree::Null,
        Document::Bool(b) => Tree::Bool(b),
        Document::Int(i) => Tree::Int(i),
        Document::Number(s) => Tree::Number(s@),
        Document::Text(s) => Tree::Text(s@),
        Document::List(v) => Tree::List(trees_of(v@, v@.len() as nat)),
        Document::Object(ms) => Tree::Object(entries_of(ms@, ms@.len() as nat)),
    }
}

/// The trees of the first `n` items.
pub open spec fn trees_of(items: Seq<Document>, n: nat) -> Seq<Tree>
    decreases items, n,
{
    if n == 0 || n > items.len() {
        Seq::empty()
    } else {
        trees_of(items, (n - 1) as nat).push(tree_of(items[n - 1]))
    }
}

/// The keys and trees of the first `n` members.
pub open spec fn entries_of(ms: Seq<Member>, n: nat) -> Seq<(Seq<char>, Tree)>
    decreases ms, n,
{
    if n == 0 || n > ms.len() {
        Seq::empty()
    } else {
        entries_of(ms, (n - 1) as nat).push((ms[n - 1].key@, tree_of(ms[n - 1].value)))
    }
}

impl View for Document {
    type V = Tree;

    open spec fn view(&self) -> Tree {
        tree_of(*self)
    }
}

pub proof fn lemma_trees_of(items: Seq<Document>, n: nat)
    requires
        n <= items.len(),
    ensures
        trees_of(items, n).len() == n,
        forall|i: int| 0 <= i < n ==> #[trigger] trees_of(items, n)[i] == tree_of(items[i]),
    decreases n,
{
    if n > 0 {
        lemma_trees_of(items, (n - 1) as nat);
    }
}

pub proof fn lemma_entries_of(ms: Seq<Member>, n: nat)
    requires
        n <= ms.len(),
    ensures
        entries_of(ms, n).len() == n,
        forall|i: int|
            0 <= i < n ==> #[trigger] entries_of(ms, n)[i] == (ms[i].key@, tree_of(ms[i].value)),
    decreases n,
{
    if n > 0 {
        lemma_entries_of(ms, (n - 1) as nat);
    }
}

/// Index of the first entry at or after `i` named `k`, if any.
pub open spec fn find_entry_from(es: Seq<(Seq<char>, Tree)>, k: Seq<char>, i: int) -> Option<int>
    decreases es.len() - i,
{
    if i < 0 || i >= es.len() {
        None
    } else if es[i].0 == k {
        Some(i)
    } else {
        find_entry_from(es, k, i + 1)
    }
}

/// Index of the first entry named `k`, if any.
pub open spec fn find_entry(es: Seq<(Seq<char>, Tree)>, k: Seq<char>) -> Option<int> {
    find_entry_from(es, k, 0)
}

pub proof fn lemma_find_entry_matches(ms: Seq<Member>, k: Seq<char>, i: int)
    requires
        0 <= i <= ms.len(),
    ensures
        find_entry_from(entries_of(ms, ms.len()), k, i) == find_from(ms, k, i),
    decreases ms.len() - i,
{
    lemma_entries_of(ms, ms.len());
    if i < ms.len() {
        lemma_find_entry_matches(ms, k, i + 1);
    }
}

pub proof fn lemma_find_entry_bounds(es: Seq<(Seq<char>, Tree)>, k: Seq<char>, i: int)
    ensures
        find_entry_from(es, k, i) matches Some(j) ==> 0 <= i <= j < es.len() && es[j].0 == k
            && forall|q: int| i <= q < j ==> es[q].0 != k,
    decreases es.len() - i,
{
    if 0 <= i < es.len() && es[i].0 != k {
        lemma_find_entry_bounds(es, k, i + 1);
    }
}

/// The node that `steps` lead to inside `t`, if any.
pub open spec fn tree_at(t: Tree, steps: Seq<PathStep>) -> Option<Tree>
    decreases steps.len(),
{
    if steps.len() == 0 {
        Some(t)
    } else {
        match steps[0] {
            PathStep::Field(k) => match t {
                Tree::Object(es) => match find_entry(es, k) {
                    Some(j) => tree_at(es[j].1, steps.drop_first()),
                    None => None,
                },
                _ => None,
            },
            PathStep::Index(n) => match t {
                Tree::List(xs) => if n < xs.len() {
                    tree_at(xs[n as int], steps.drop_first())
                } else {
                    None
                },
                _ => None,
            },
            PathStep::Malformed => None,
        }
    }
}

} // verus!
