//! The document walker: collects translatable strings with their key paths.

use vstd::prelude::*;
use crate::analyzer::TextEntry;
use crate::document::{
    Document, Member, Tree, entries_of, tree_at, find_entry, find_entry_from, find_key, find_member,
    lemma_entries_of, lemma_find_entry_matches, lemma_trees_of, same_text, trees_of,
};
use crate::events::{EventCode, TextSlots};
use crate::mutate::{is_scalar, set_path, set_tree};
use crate::keys::{is_skipped_key, is_text_key, skipped_key, text_key};
use crate::path::{PathStep, decode, encode, join_field, join_index, lemma_round_trip, round_trips};
use crate::text::{is_system_text, is_system_text_of};

verus! {

/// A string found by the walker and the steps that lead to it.
pub ghost struct Found {
    pub source: Seq<char>,
    pub steps: Seq<PathStep>,
}

/// A string that is offered for translation: not empty and not system text.
pub open spec fn keeps(s: Seq<char>) -> bool {
    s.len() > 0 && !is_system_text(s)
}

/// An audio setting: a mapping with `name`, `volume`, `pitch` and `pan`.
pub open spec fn is_audio(ms: Seq<Member>) -> bool {
    &&& find_key(ms, "name"@) is Some
    &&& find_key(ms, "volume"@) is Some
    &&& find_key(ms, "pitch"@) is Some
    &&& find_key(ms, "pan"@) is Some
}

/// The code and parameters of a mapping shaped as an event command: an
/// integer `code` and a list `parameters`.
pub open spec fn command_shape(ms: Seq<Member>) -> Option<(i64, Seq<Document>)> {
    match (find_key(ms, "code"@), find_key(ms, "parameters"@)) {
        (Some(a), Some(b)) => match (ms[a].value, ms[b].value) {
            (Document::Int(c), Document::List(ps)) => Some((c, ps@)),
            _ => None,
        },
        _ => None,
    }
}

/// The table entry for a numeric command code, if there is one.
pub open spec fn known_code(c: i64) -> Option<EventCode> {
    if exists|e: EventCode| e.value() == c {
        Some(choose|e: EventCode| e.value() == c)
    } else {
        None
    }
}

/// The steps to parameter `i` of the command at `p`.
pub open spec fn param_steps(p: Seq<PathStep>, i: nat) -> Seq<PathStep> {
    p.push(PathStep::Field("parameters"@)).push(PathStep::Index(i))
}

/// The strings of choice list `cs` among its first `n` items.
pub open spec fn walk_choices(cs: Seq<Document>, base: Seq<PathStep>, n: nat) -> Seq<Found>
    decreases n,
{
    if n == 0 || n > cs.len() {
        Seq::empty()
    } else {
        let prev = walk_choices(cs, base, (n - 1) as nat);
        match cs[n - 1] {
            Document::Text(s) => if keeps(s@) {
                prev.push(Found { source: s@, steps: base.push(PathStep::Index((n - 1) as nat)) })
            } else {
                prev
            },
            _ => prev,
        }
    }
}

/// What the event table takes from the parameters `ps` of a command at `p`.
pub open spec fn walk_policy(slots: TextSlots, ps: Seq<Document>, p: Seq<PathStep>) -> Seq<Found> {
    match slots {
        TextSlots::Nothing => Seq::empty(),
        TextSlots::Slot(i) => if i < ps.len() {
            match ps[i as int] {
                Document::Text(s) => if keeps(s@) {
                    seq![Found { source: s@, steps: param_steps(p, i as nat) }]
                } else {
                    Seq::empty()
                },
                _ => Seq::empty(),
            }
        } else {
            Seq::empty()
        },
        TextSlots::ChoiceList => if ps.len() > 0 {
            match ps[0] {
                Document::List(cs) => walk_choices(cs@, param_steps(p, 0), cs@.len()),
                _ => Seq::empty(),
            }
        } else {
            Seq::empty()
        },
    }
}

/// The records of a document at steps `p`.
pub open spec fn walk(d: Document, p: Seq<PathStep>) -> Seq<Found>
    decreases d,
{
    match d {
        Document::Text(s) => if keeps(s@) {
            seq![Found { source: s@, steps: p }]
        } else {
            Seq::empty()
        },
        Document::List(v) => walk_items(v@, p, v@.len()),
        Document::Object(ms) => if is_audio(ms@) {
            Seq::empty()
        } else {
            match command_shape(ms@) {
                Some((c, ps)) => match known_code(c) {
                    Some(e) => walk_policy(e.slots(), ps, p) + walk_command(
                        ms@,
                        p,
                        true,
                        ms@.len(),
                    ),
                    None => walk_command(ms@, p, false, ms@.len()),
                },
                None => walk_plain(ms@, p, ms@.len()),
            }
        },
        _ => Seq::empty(),
    }
}

/// The records of the first `n` items of a list at `p`.
pub open spec fn walk_items(items: Seq<Document>, p: Seq<PathStep>, n: nat) -> Seq<Found>
    decreases items, n,
{
    if n == 0 || n > items.len() {
        Seq::empty()
    } else {
        walk_items(items, p, (n - 1) as nat) + walk(
            items[n - 1],
            p.push(PathStep::Index((n - 1) as nat)),
        )
    }
}

/// Whether a command's member named `k` is left out of the walk: the code,
/// the indent, and the parameters when the event table consumed them.
pub open spec fn command_skips(k: Seq<char>, consumed: bool) -> bool {
    k == "code"@ || k == "indent"@ || (consumed && k == "parameters"@)
}

pub open spec fn is_container(d: Document) -> bool {
    d is List || d is Object
}

/// The records of the first `n` members of a command at `p`.
pub open spec fn walk_command(ms: Seq<Member>, p: Seq<PathStep>, consumed: bool, n: nat) -> Seq<
    Found,
>
    decreases ms, n,
{
    if n == 0 || n > ms.len() {
        Seq::empty()
    } else {
        let m = ms[n - 1];
        walk_command(ms, p, consumed, (n - 1) as nat) + if command_skips(m.key@, consumed)
            || !is_container(m.value) {
            Seq::empty()
        } else {
            walk(m.value, p.push(PathStep::Field(m.key@)))
        }
    }
}

/// The records of the first `n` members of a plain mapping at `p`.
pub open spec fn walk_plain(ms: Seq<Member>, p: Seq<PathStep>, n: nat) -> Seq<Found>
    decreases ms, n,
{
    if n == 0 || n > ms.len() {
        Seq::empty()
    } else {
        let m = ms[n - 1];
        walk_plain(ms, p, (n - 1) as nat) + if is_skipped_key(m.key@) {
            Seq::empty()
        } else {
            match m.value {
                Document::Text(s) => if is_text_key(m.key@) && keeps(s@) {
                    seq![Found { source: s@, steps: p.push(PathStep::Field(m.key@)) }]
                } else {
                    Seq::empty()
                },
                Document::List(_) => walk(m.value, p.push(PathStep::Field(m.key@))),
                Document::Object(_) => walk(m.value, p.push(PathStep::Field(m.key@))),
                _ => Seq::empty(),
            }
        }
    }
}

/// `e` is the record of `f` found in file `file`.
pub open spec fn entry_of(e: TextEntry, f: Found, file: Seq<char>) -> bool {
    &&& e.source@ == f.source
    &&& e.path@ == file
    &&& e.key@ == encode(f.steps)
    &&& e.text is None
}

/// `new` is `old` followed by the records of `found` in file `file`.
pub open spec fn extends(old: Seq<TextEntry>, new: Seq<TextEntry>, found: Seq<Found>, file: Seq<char>) -> bool {
    &&& new.len() == old.len() + found.len()
    &&& forall|i: int| 0 <= i < old.len() ==> new[i] == old[i]
    &&& forall|j: int| 0 <= j < found.len() ==> entry_of(#[trigger] new[old.len() + j], found[j], file)
}

proof fn lemma_extends_trans(a: Seq<TextEntry>, b: Seq<TextEntry>, c: Seq<TextEntry>, f: Seq<Found>, g: Seq<Found>, file: Seq<char>)
    requires
        extends(a, b, f, file),
        extends(b, c, g, file),
    ensures
        extends(a, c, f + g, file),
{
    assert forall|j: int| 0 <= j < (f + g).len() implies entry_of(#[trigger] c[a.len() + j], (f + g)[j], file) by {
        if j < f.len() {
            assert(c[a.len() + j] == b[a.len() + j]);
        } else {
            assert(c[a.len() + j] == c[b.len() + (j - f.len())]);
        }
    }
}

proof fn lemma_known_code(c: i64, e: EventCode)
    requires
        e.value() == c,
    ensures
        known_code(c) == Some(e),
{
    let x = choose|x: EventCode| x.value() == c;
    assert(x.value() == e.value());
    lemma_value_injective(x, e);
}

proof fn lemma_value_injective(a: EventCode, b: EventCode)
    requires
        a.value() == b.value(),
    ensures
        a == b,
{
}

fn new_entry(source: &String, file_path: &str, key: String) -> (r: TextEntry)
    ensures
        r.source@ == source@,
        r.path@ == file_path@,
        r.key@ == key@,
        r.text is None,
{
    TextEntry { source: source.clone(), path: file_path.to_string(), key, text: None }
}

fn keep_text(s: &String) -> (r: bool)
    ensures
        r == keeps(s@),
{
    !s.as_str().is_empty() && !is_system_text_of(s.as_str())
}

fn push_entry(
    entries: &mut Vec<TextEntry>,
    source: &String,
    file_path: &str,
    key: String,
    found: Ghost<Found>,
)
    requires
        found@.source == source@,
        key@ == encode(found@.steps),
    ensures
        extends(old(entries)@, final(entries)@, seq![found@], file_path@),
{
    let e = new_entry(source, file_path, key);
    entries.push(e);
    assert(entries@[old(entries)@.len() as int + 0] == e);
}

fn extract_choices(
    cs: &Vec<Document>,
    entries: &mut Vec<TextEntry>,
    file_path: &str,
    base_key: &String,
    base: Ghost<Seq<PathStep>>,
)
    requires
        base_key@ == encode(base@),
    ensures
        extends(old(entries)@, final(entries)@, walk_choices(cs@, base@, cs@.len()), file_path@),
{
    let ghost start = entries@;
    let mut i: usize = 0;
    while i < cs.len()
        invariant
            0 <= i <= cs@.len(),
            base_key@ == encode(base@),
            extends(start, entries@, walk_choices(cs@, base@, i as nat), file_path@),
        decreases cs.len() - i,
    {
        let ghost before = entries@;
        if let Document::Text(s) = &cs[i] {
            if keep_text(s) {
                let ghost steps = base@.push(PathStep::Index(i as nat));
                assert(steps.drop_last() =~= base@);
                let key = join_index(base_key, i);
                push_entry(entries, s, file_path, key, Ghost(Found { source: s@, steps }));
                proof {
                    lemma_extends_trans(start, before, entries@, walk_choices(cs@, base@, i as nat), seq![Found { source: s@, steps }], file_path@);
                    assert(walk_choices(cs@, base@, (i + 1) as nat) =~= walk_choices(cs@, base@, i as nat) + seq![Found { source: s@, steps }]);
                }
            } else {
                assert(walk_choices(cs@, base@, (i + 1) as nat) =~= walk_choices(cs@, base@, i as nat));
            }
        } else {
            assert(walk_choices(cs@, base@, (i + 1) as nat) =~= walk_choices(cs@, base@, i as nat));
        }
        i = i + 1;
    }
}

fn extract_policy(
    slots: TextSlots,
    ps: &Vec<Document>,
    entries: &mut Vec<TextEntry>,
    file_path: &str,
    key_path: &String,
    at_root: bool,
    p: Ghost<Seq<PathStep>>,
)
    requires
        key_path@ == encode(p@),
        at_root == (p@.len() == 0),
    ensures
        extends(old(entries)@, final(entries)@, walk_policy(slots, ps@, p@), file_path@),
{
    let params = "parameters".to_string();
    let params_key = join_field(key_path, at_root, &params);
    let ghost pf = p@.push(PathStep::Field("parameters"@));
    proof {
        assert(pf.drop_last() =~= p@);
        assert(params@ == "parameters"@);
        assert(encode(pf) == params_key@);
    }
    match slots {
        TextSlots::Nothing => {},
        TextSlots::Slot(i) => {
            if i < ps.len() {
                if let Document::Text(s) = &ps[i] {
                    if keep_text(s) {
                        let key = join_index(&params_key, i);
                        proof {
                            assert(param_steps(p@, i as nat).drop_last() =~= pf);
                            assert(encode(param_steps(p@, i as nat)) == key@);
                        }
                        push_entry(entries, s, file_path, key, Ghost(Found { source: s@, steps: param_steps(p@, i as nat) }));
                    }
                }
            }
        },
        TextSlots::ChoiceList => {
            if ps.len() > 0 {
                if let Document::List(cs) = &ps[0] {
                    let key = join_index(&params_key, 0);
                    proof {
                        assert(param_steps(p@, 0).drop_last() =~= pf);
                        assert(encode(param_steps(p@, 0)) == key@);
                    }
                    extract_choices(cs, entries, file_path, &key, Ghost(param_steps(p@, 0)));
                }
            }
        },
    }
}

fn find_int(ms: &Vec<Member>, k: &str) -> (r: Option<i64>)
    ensures
        r matches Some(c) ==> find_key(ms@, k@) matches Some(a) && ms@[a].value == Document::Int(c),
        r is None ==> !(find_key(ms@, k@) matches Some(a) && ms@[a].value is Int),
{
    match find_member(ms, k) {
        Some(a) => match &ms[a].value {
            Document::Int(c) => Some(*c),
            _ => None,
        },
        None => None,
    }
}

fn is_audio_members(ms: &Vec<Member>) -> (r: bool)
    ensures
        r == is_audio(ms@),
{
    find_member(ms, "name").is_some() && find_member(ms, "volume").is_some() && find_member(
        ms,
        "pitch",
    ).is_some() && find_member(ms, "pan").is_some()
}

/// Appends to `entries` the translatable strings of `value`, which sits at
/// `key_path` inside the file `file_path`.
fn extract_strings(
    value: &Document,
    entries: &mut Vec<TextEntry>,
    file_path: &str,
    key_path: &String,
    at_root: bool,
    steps: Ghost<Seq<PathStep>>,
)
    requires
        key_path@ == encode(steps@),
        at_root == (steps@.len() == 0),
    ensures
        extends(old(entries)@, final(entries)@, walk(*value, steps@), file_path@),
    decreases value,
{
    let ghost start = entries@;
    let ghost p = steps@;
    match value {
        Document::Text(s) => {
            if keep_text(s) {
                push_entry(entries, s, file_path, key_path.clone(), Ghost(Found { source: s@, steps: p }));
            }
        },
        Document::List(v) => {
            assert(decreases_to!(*value => *v));
            let mut i: usize = 0;
            while i < v.len()
                invariant
                    0 <= i <= v@.len(),
                    key_path@ == encode(p),
                    p == steps@,
                    decreases_to!(*value => *v),
                    extends(start, entries@, walk_items(v@, p, i as nat), file_path@),
                decreases v.len() - i,
            {
                let ghost before = entries@;
                let ghost q = p.push(PathStep::Index(i as nat));
                assert(q.drop_last() =~= p);
                let key = join_index(key_path, i);
                proof {
                    assert(decreases_to!(*value => *v));
                    assert(decreases_to!(*v => v@));
                    assert(decreases_to!(v@ => v@[i as int]));
                    assert(decreases_to!(*value => v@[i as int]));
                }
                extract_strings(&v[i], entries, file_path, &key, false, Ghost(q));
                proof {
                    lemma_extends_trans(start, before, entries@, walk_items(v@, p, i as nat), walk(v@[i as int], q), file_path@);
                }
                i = i + 1;
            }
        },
        Document::Object(ms) => {
            assert(decreases_to!(*value => *ms));
            if is_audio_members(ms) {
                return;
            }
            let code = find_int(ms, "code");
            let params = find_member(ms, "parameters");
            let mut command: Option<(i64, &Vec<Document>)> = None;
            if let Some(c) = code {
                if let Some(b) = params {
                    if let Document::List(ps) = &ms[b].value {
                        command = Some((c, ps));
                    }
                }
            }
            assert(command is None <==> command_shape(ms@) is None);
            assert(command matches Some((c, ps)) ==> command_shape(ms@) == Some((c, ps@)));
            match command {
                Some((c, ps)) => {
                    let consumed = match EventCode::from_i64(c) {
                        Some(e) => {
                            proof {
                                lemma_known_code(c, e);
                            }
                            extract_policy(e.text_slots(), ps, entries, file_path, key_path, at_root, Ghost(p));
                            true
                        },
                        None => false,
                    };
                    let ghost mid = entries@;
                    let ghost head = match known_code(c) {
                        Some(e) => walk_policy(e.slots(), ps@, p),
                        None => Seq::empty(),
                    };
                    assert(extends(start, mid, head, file_path@));
                    assert(consumed == known_code(c) is Some);
                    let mut i: usize = 0;
                    while i < ms.len()
                        invariant
                            0 <= i <= ms@.len(),
                            key_path@ == encode(p),
                            at_root == (p.len() == 0),
                            p == steps@,
                            decreases_to!(*value => *ms),
                            extends(mid, entries@, walk_command(ms@, p, consumed, i as nat), file_path@),
                        decreases ms.len() - i,
                    {
                        let ghost before = entries@;
                        let m = &ms[i];
                        let skip = same_text(m.key.as_str(), "code") || same_text(m.key.as_str(), "indent")
                            || (consumed && same_text(m.key.as_str(), "parameters"));
                        let container = match &m.value {
                            Document::List(_) => true,
                            Document::Object(_) => true,
                            _ => false,
                        };
                        if !skip && container {
                            let ghost q = p.push(PathStep::Field(m.key@));
                            assert(q.drop_last() =~= p);
                            let key = join_field(key_path, at_root, &m.key);
                            proof {
                                assert(decreases_to!(*value => *ms));
                                assert(decreases_to!(*ms => ms@));
                                assert(decreases_to!(ms@ => ms@[i as int]));
                                assert(decreases_to!(ms@[i as int] => ms@[i as int].value));
                                assert(decreases_to!(*value => ms@[i as int].value));
                            }
                            extract_strings(&m.value, entries, file_path, &key, false, Ghost(q));
                            proof {
                                lemma_extends_trans(mid, before, entries@, walk_command(ms@, p, consumed, i as nat), walk(m.value, q), file_path@);
                            }
                        } else {
                            assert(walk_command(ms@, p, consumed, (i + 1) as nat) =~= walk_command(ms@, p, consumed, i as nat));
                        }
                        i = i + 1;
                    }
                    proof {
                        lemma_extends_trans(start, mid, entries@, head, walk_command(ms@, p, consumed, ms@.len()), file_path@);
                    }
                },
                None => {
                    let mut i: usize = 0;
                    while i < ms.len()
                        invariant
                            0 <= i <= ms@.len(),
                            key_path@ == encode(p),
                            at_root == (p.len() == 0),
                            p == steps@,
                            decreases_to!(*value => *ms),
                            extends(start, entries@, walk_plain(ms@, p, i as nat), file_path@),
                        decreases ms.len() - i,
                    {
                        let ghost before = entries@;
                        let m = &ms[i];
                        let ghost q = p.push(PathStep::Field(m.key@));
                        assert(q.drop_last() =~= p);
                        if !skipped_key(m.key.as_str()) {
                            match &m.value {
                                Document::Text(s) => {
                                    if text_key(m.key.as_str()) && keep_text(s) {
                                        let key = join_field(key_path, at_root, &m.key);
                                        push_entry(entries, s, file_path, key, Ghost(Found { source: s@, steps: q }));
                                        proof {
                                            lemma_extends_trans(start, before, entries@, walk_plain(ms@, p, i as nat), seq![Found { source: s@, steps: q }], file_path@);
                                        }
                                    } else {
                                        assert(walk_plain(ms@, p, (i + 1) as nat) =~= walk_plain(ms@, p, i as nat));
                                    }
                                },
                                Document::List(_) | Document::Object(_) => {
                                    let key = join_field(key_path, at_root, &m.key);
                                    proof {
                                assert(decreases_to!(*value => *ms));
                                assert(decreases_to!(*ms => ms@));
                                assert(decreases_to!(ms@ => ms@[i as int]));
                                assert(decreases_to!(ms@[i as int] => ms@[i as int].value));
                                assert(decreases_to!(*value => ms@[i as int].value));
                            }
                            extract_strings(&m.value, entries, file_path, &key, false, Ghost(q));
                                    proof {
                                        lemma_extends_trans(start, before, entries@, walk_plain(ms@, p, i as nat), walk(m.value, q), file_path@);
                                    }
                                },
                                _ => {
                                    assert(walk_plain(ms@, p, (i + 1) as nat) =~= walk_plain(ms@, p, i as nat));
                                },
                            }
                        } else {
                            assert(walk_plain(ms@, p, (i + 1) as nat) =~= walk_plain(ms@, p, i as nat));
                        }
                        i = i + 1;
                    }
                },
            }
        },
        _ => {},
    }
}

/// The translatable strings of the document `doc`, read from the file
/// `file_path`, in document order.
pub fn extract_document(doc: &Document, file_path: &str) -> (r: Vec<TextEntry>)
    ensures
        extends(Seq::empty(), r@, walk(*doc, Seq::<PathStep>::empty()), file_path@),
{
    let mut entries: Vec<TextEntry> = Vec::new();
    let root = String::new();
    proof {
        assert(entries@ =~= Seq::<TextEntry>::empty());
    }
    extract_strings(doc, &mut entries, file_path, &root, true, Ghost(Seq::empty()));
    entries
}

/// `q` is a prefix of `s`.
pub open spec fn has_prefix(s: Seq<PathStep>, q: Seq<PathStep>) -> bool {
    q.len() <= s.len() && s.subrange(0, q.len() as int) == q
}

/// `s` leads into the `parameters` member of the mapping at `p`.
pub open spec fn in_parameters(s: Seq<PathStep>, p: Seq<PathStep>) -> bool {
    has_prefix(s, p) && s.len() > p.len() && s[p.len() as int] == PathStep::Field("parameters"@)
}

proof fn lemma_prefix_push(s: Seq<PathStep>, q: Seq<PathStep>, x: PathStep)
    requires
        has_prefix(s, q.push(x)),
    ensures
        has_prefix(s, q),
        s.len() > q.len(),
        s[q.len() as int] == x,
{
    assert(q.push(x).subrange(0, q.len() as int) =~= q);
    assert(s.subrange(0, q.len() as int) =~= s.subrange(0, q.len() as int + 1).subrange(0, q.len() as int));
    assert(s.subrange(0, q.len() as int + 1)[q.len() as int] == s[q.len() as int]);
}

proof fn lemma_choices_shape(cs: Seq<Document>, base: Seq<PathStep>, n: nat)
    ensures
        forall|r: int|
            0 <= r < walk_choices(cs, base, n).len() ==> {
                let s = #[trigger] walk_choices(cs, base, n)[r].steps;
                &&& s.len() == base.len() + 1
                &&& s.drop_last() == base
                &&& s.last() is Index
                &&& s.last()->Index_0 < n
            },
        forall|r1: int, r2: int|
            0 <= r1 < r2 < walk_choices(cs, base, n).len() ==> (#[trigger] walk_choices(cs, base, n)[r1]).steps.last()->Index_0
                < (#[trigger] walk_choices(cs, base, n)[r2]).steps.last()->Index_0,
    decreases n,
{
    if n > 0 && n <= cs.len() {
        lemma_choices_shape(cs, base, (n - 1) as nat);
        let s = base.push(PathStep::Index((n - 1) as nat));
        assert(s.drop_last() =~= base);
    }
}

proof fn lemma_walk_prefix(d: Document, q: Seq<PathStep>)
    ensures
        forall|r: int| 0 <= r < walk(d, q).len() ==> has_prefix(#[trigger] walk(d, q)[r].steps, q),
    decreases d,
{
    match d {
        Document::Text(s) => {
            assert(q.subrange(0, q.len() as int) =~= q);
            if keeps(s@) {
                assert(walk(d, q) == seq![Found { source: s@, steps: q }]);
                assert(walk(d, q)[0].steps == q);
                assert(has_prefix(walk(d, q)[0].steps, q));
            } else {
                assert(walk(d, q).len() == 0);
            }
        },
        Document::List(v) => {
            lemma_items_prefix(v@, q, v@.len());
            assert(walk(d, q) == walk_items(v@, q, v@.len()));
        },
        Document::Object(ms) => {
            if !is_audio(ms@) {
                match command_shape(ms@) {
                    Some((c, ps)) => {
                        lemma_command_prefix(ms@, q, known_code(c) is Some, ms@.len());
                        let t = walk_command(ms@, q, known_code(c) is Some, ms@.len());
                        if let Some(e) = known_code(c) {
                            lemma_policy_prefix(e.slots(), ps, q);
                            let h = walk_policy(e.slots(), ps, q);
                            assert(walk(d, q) == h + t);
                            assert forall|r: int| 0 <= r < (h + t).len() implies has_prefix(#[trigger] (h + t)[r].steps, q) by {
                                if r < h.len() {
                                    assert((h + t)[r] == h[r]);
                                } else {
                                    assert((h + t)[r] == t[r - h.len()]);
                                }
                            }
                        } else {
                            assert(walk(d, q) == t);
                        }
                    },
                    None => {
                        lemma_plain_prefix(ms@, q, ms@.len());
                        assert(walk(d, q) == walk_plain(ms@, q, ms@.len()));
                    },
                }
            }
        },
        _ => {},
    }
}

proof fn lemma_policy_prefix(slots: TextSlots, ps: Seq<Document>, q: Seq<PathStep>)
    ensures
        forall|r: int|
            0 <= r < walk_policy(slots, ps, q).len() ==> in_parameters(
                #[trigger] walk_policy(slots, ps, q)[r].steps,
                q,
            ),
{
    let pf = q.push(PathStep::Field("parameters"@));
    assert(pf.subrange(0, q.len() as int) =~= q);
    assert forall|i: nat| in_parameters(#[trigger] param_steps(q, i), q) by {
        assert(param_steps(q, i).subrange(0, q.len() as int) =~= q);
    }
    if let TextSlots::ChoiceList = slots {
        if ps.len() > 0 {
            if let Document::List(cs) = ps[0] {
                let base = param_steps(q, 0);
                lemma_choices_shape(cs@, base, cs@.len());
                assert forall|r: int|
                    0 <= r < walk_choices(cs@, base, cs@.len()).len() implies in_parameters(
                    #[trigger] walk_choices(cs@, base, cs@.len())[r].steps,
                    q,
                ) by {
                    let s = walk_choices(cs@, base, cs@.len())[r].steps;
                    assert(s.subrange(0, q.len() as int) =~= base.subrange(0, q.len() as int));
                    assert(s[q.len() as int] == base[q.len() as int]);
                }
            }
        }
    }
}

proof fn lemma_items_prefix(items: Seq<Document>, q: Seq<PathStep>, n: nat)
    ensures
        forall|r: int|
            0 <= r < walk_items(items, q, n).len() ==> has_prefix(
                #[trigger] walk_items(items, q, n)[r].steps,
                q,
            ),
    decreases items, n,
{
    if n > 0 && n <= items.len() {
        lemma_items_prefix(items, q, (n - 1) as nat);
        let x = PathStep::Index((n - 1) as nat);
        lemma_walk_prefix(items[n - 1], q.push(x));
        let a = walk_items(items, q, (n - 1) as nat);
        let b = walk(items[n - 1], q.push(x));
        assert forall|r: int| 0 <= r < (a + b).len() implies has_prefix(#[trigger] (a + b)[r].steps, q) by {
            if r >= a.len() {
                lemma_prefix_push(b[r - a.len()].steps, q, x);
            }
        }
    }
}

proof fn lemma_command_prefix(ms: Seq<Member>, q: Seq<PathStep>, consumed: bool, n: nat)
    ensures
        forall|r: int|
            0 <= r < walk_command(ms, q, consumed, n).len() ==> {
                let s = #[trigger] walk_command(ms, q, consumed, n)[r].steps;
                &&& has_prefix(s, q)
                &&& s.len() > q.len()
                &&& s[q.len() as int] is Field
                &&& !command_skips(s[q.len() as int]->Field_0, consumed)
            },
    decreases ms, n,
{
    if n > 0 && n <= ms.len() {
        lemma_command_prefix(ms, q, consumed, (n - 1) as nat);
        let m = ms[n - 1];
        if !(command_skips(m.key@, consumed) || !is_container(m.value)) {
            let x = PathStep::Field(m.key@);
            lemma_walk_prefix(m.value, q.push(x));
            let a = walk_command(ms, q, consumed, (n - 1) as nat);
            let b = walk(m.value, q.push(x));
            assert forall|r: int| 0 <= r < b.len() implies {
                let s = #[trigger] b[r].steps;
                &&& has_prefix(s, q)
                &&& s.len() > q.len()
                &&& s[q.len() as int] is Field
                &&& !command_skips(s[q.len() as int]->Field_0, consumed)
            } by {
                lemma_prefix_push(b[r].steps, q, x);
            }
            assert(walk_command(ms, q, consumed, n) == a + b);
            assert forall|r: int| a.len() <= r < (a + b).len() implies (a + b)[r] == b[r - a.len()] by {}
        } else {
            assert(walk_command(ms, q, consumed, n) =~= walk_command(ms, q, consumed, (n - 1) as nat));
        }
    }
}

proof fn lemma_plain_prefix(ms: Seq<Member>, q: Seq<PathStep>, n: nat)
    ensures
        forall|r: int|
            0 <= r < walk_plain(ms, q, n).len() ==> has_prefix(
                #[trigger] walk_plain(ms, q, n)[r].steps,
                q,
            ),
    decreases ms, n,
{
    if n > 0 && n <= ms.len() {
        lemma_plain_prefix(ms, q, (n - 1) as nat);
        let m = ms[n - 1];
        let x = PathStep::Field(m.key@);
        let a = walk_plain(ms, q, (n - 1) as nat);
        if !is_skipped_key(m.key@) {
            match m.value {
                Document::Text(s) => {
                    let s2 = q.push(x);
                    assert(s2.subrange(0, q.len() as int) =~= q);
                },
                Document::List(_) | Document::Object(_) => {
                    lemma_walk_prefix(m.value, q.push(x));
                    let b = walk(m.value, q.push(x));
                    assert forall|r: int| 0 <= r < b.len() implies has_prefix(#[trigger] b[r].steps, q) by {
                        lemma_prefix_push(b[r].steps, q, x);
                    }
                    assert forall|r: int| a.len() <= r < (a + b).len() implies (a + b)[r] == b[r - a.len()] by {}
                },
                _ => {},
            }
        }
    }
}

/// In the walk of a mapping recognised as an event command, the steps of
/// a record that lies inside `parameters` occur in no other record: the
/// event table and the generic walk never both report a parameter slot.
pub proof fn lemma_command_slots_reported_once(d: Document, p: Seq<PathStep>)
    requires
        d is Object,
        !is_audio(d->Object_0@),
        command_shape(d->Object_0@) matches Some((c, _)) && known_code(c) is Some,
    ensures
        forall|i: int, j: int|
            0 <= i < walk(d, p).len() && 0 <= j < walk(d, p).len() && i != j && in_parameters(
                #[trigger] walk(d, p)[i].steps,
                p,
            ) ==> (#[trigger] walk(d, p)[j]).steps != walk(d, p)[i].steps,
{
    let ms = d->Object_0@;
    let (c, ps) = command_shape(ms)->0;
    let e = known_code(c)->0;
    let head = walk_policy(e.slots(), ps, p);
    let tail = walk_command(ms, p, true, ms.len());
    let w = walk(d, p);
    assert(w == head + tail);
    lemma_policy_prefix(e.slots(), ps, p);
    lemma_command_prefix(ms, p, true, ms.len());
    let pf = p.push(PathStep::Field("parameters"@));
    if let TextSlots::ChoiceList = e.slots() {
        if ps.len() > 0 {
            if let Document::List(cs) = ps[0] {
                lemma_choices_shape(cs@, param_steps(p, 0), cs@.len());
            }
        }
    }
    assert forall|i: int, j: int|
        0 <= i < w.len() && 0 <= j < w.len() && i != j && in_parameters(#[trigger] w[i].steps, p)
            implies (#[trigger] w[j]).steps != w[i].steps by {
        if i >= head.len() {
            assert(w[i] == tail[i - head.len()]);
        } else if j >= head.len() {
            assert(w[j] == tail[j - head.len()]);
            assert(!command_skips(tail[j - head.len()].steps[p.len() as int]->Field_0, true));
        } else {
            assert(w[i] == head[i]);
            assert(w[j] == head[j]);
            if let TextSlots::ChoiceList = e.slots() {
                let (lo, hi) = if i < j { (i, j) } else { (j, i) };
                assert(head[lo].steps.last()->Index_0 < head[hi].steps.last()->Index_0);
            }
        }
    }
}

/// A step that the codec writes and reads back unchanged.
pub open spec fn step_round_trips(s: PathStep) -> bool {
    match s {
        PathStep::Field(k) => k.len() > 0 && !k.contains('.') && !k.contains('['),
        PathStep::Index(n) => n <= usize::MAX,
        PathStep::Malformed => false,
    }
}

pub open spec fn steps_round_trip(s: Seq<PathStep>) -> bool {
    forall|i: int| 0 <= i < s.len() ==> step_round_trips(#[trigger] s[i])
}

/// Every key of every mapping in `d` is non-empty and holds no `.` or `[`,
/// and every list is no longer than `usize` can count.
pub open spec fn clean_keys(d: Document) -> bool
    decreases d,
{
    match d {
        Document::List(v) => v@.len() <= usize::MAX && clean_items(v@, v@.len()),
        Document::Object(ms) => clean_members(ms@, ms@.len()),
        _ => true,
    }
}

pub open spec fn clean_items(items: Seq<Document>, n: nat) -> bool
    decreases items, n,
{
    if n == 0 || n > items.len() {
        true
    } else {
        clean_items(items, (n - 1) as nat) && clean_keys(items[n - 1])
    }
}

pub open spec fn clean_members(ms: Seq<Member>, n: nat) -> bool
    decreases ms, n,
{
    if n == 0 || n > ms.len() {
        true
    } else {
        clean_members(ms, (n - 1) as nat) && step_round_trips(PathStep::Field(ms[n - 1].key@))
            && clean_keys(ms[n - 1].value)
    }
}

proof fn lemma_push_round_trips(q: Seq<PathStep>, x: PathStep)
    requires
        steps_round_trip(q),
        step_round_trips(x),
    ensures
        steps_round_trip(q.push(x)),
{
    assert forall|i: int| 0 <= i < q.push(x).len() implies step_round_trips(#[trigger] q.push(x)[i]) by {
        if i < q.len() {
            assert(q.push(x)[i] == q[i]);
        }
    }
}

proof fn lemma_clean_items_at(items: Seq<Document>, n: nat, i: int)
    requires
        clean_items(items, n),
        0 <= i < n <= items.len(),
    ensures
        clean_keys(items[i]),
    decreases n,
{
    if i < n - 1 {
        lemma_clean_items_at(items, (n - 1) as nat, i);
    }
}

proof fn lemma_clean_members_at(ms: Seq<Member>, n: nat, i: int)
    requires
        clean_members(ms, n),
        0 <= i < n <= ms.len(),
    ensures
        clean_keys(ms[i].value),
        step_round_trips(PathStep::Field(ms[i].key@)),
    decreases n,
{
    if i < n - 1 {
        lemma_clean_members_at(ms, (n - 1) as nat, i);
    }
}

proof fn lemma_walk_clean(d: Document, q: Seq<PathStep>)
    requires
        clean_keys(d),
        steps_round_trip(q),
    ensures
        forall|r: int| 0 <= r < walk(d, q).len() ==> steps_round_trip(#[trigger] walk(d, q)[r].steps),
    decreases d,
{
    match d {
        Document::Text(s) => {
            if keeps(s@) {
                assert(walk(d, q) == seq![Found { source: s@, steps: q }]);
            }
        },
        Document::List(v) => {
            lemma_items_clean(v@, q, v@.len());
            assert(walk(d, q) == walk_items(v@, q, v@.len()));
        },
        Document::Object(ms) => {
            if !is_audio(ms@) {
                match command_shape(ms@) {
                    Some((c, ps)) => {
                        lemma_command_clean(ms@, q, known_code(c) is Some, ms@.len());
                        let t = walk_command(ms@, q, known_code(c) is Some, ms@.len());
                        if let Some(e) = known_code(c) {
                            let a = find_key(ms@, "parameters"@)->0;
                            crate::document::lemma_find_from_in_range(ms@, "parameters"@, 0);
                            lemma_clean_members_at(ms@, ms@.len(), a);
                            lemma_policy_clean(e.slots(), ps, q);
                            let h = walk_policy(e.slots(), ps, q);
                            assert(walk(d, q) == h + t);
                            assert forall|r: int| 0 <= r < (h + t).len() implies steps_round_trip(#[trigger] (h + t)[r].steps) by {
                                if r < h.len() {
                                    assert((h + t)[r] == h[r]);
                                } else {
                                    assert((h + t)[r] == t[r - h.len()]);
                                }
                            }
                        } else {
                            assert(walk(d, q) == t);
                        }
                    },
                    None => {
                        lemma_plain_clean(ms@, q, ms@.len());
                        assert(walk(d, q) == walk_plain(ms@, q, ms@.len()));
                    },
                }
            }
        },
        _ => {},
    }
}

proof fn lemma_policy_clean(slots: TextSlots, ps: Seq<Document>, q: Seq<PathStep>)
    requires
        steps_round_trip(q),
        ps.len() <= usize::MAX,
        clean_items(ps, ps.len()),
    ensures
        forall|r: int|
            0 <= r < walk_policy(slots, ps, q).len() ==> steps_round_trip(
                #[trigger] walk_policy(slots, ps, q)[r].steps,
            ),
{
    reveal_strlit("parameters");
    let pf = q.push(PathStep::Field("parameters"@));
    lemma_push_round_trips(q, PathStep::Field("parameters"@));
    match slots {
        TextSlots::Slot(i) => {
            if i < ps.len() {
                lemma_push_round_trips(pf, PathStep::Index(i as nat));
            }
        },
        TextSlots::ChoiceList => {
            if ps.len() > 0 {
                if let Document::List(cs) = ps[0] {
                    lemma_clean_items_at(ps, ps.len(), 0);
                    let base = param_steps(q, 0);
                    lemma_push_round_trips(pf, PathStep::Index(0));
                    lemma_choices_shape(cs@, base, cs@.len());
                    assert forall|r: int|
                        0 <= r < walk_choices(cs@, base, cs@.len()).len() implies steps_round_trip(
                        #[trigger] walk_choices(cs@, base, cs@.len())[r].steps,
                    ) by {
                        let s = walk_choices(cs@, base, cs@.len())[r].steps;
                        assert(s =~= base.push(s.last()));
                        lemma_push_round_trips(base, s.last());
                    }
                }
            }
        },
        TextSlots::Nothing => {},
    }
}

proof fn lemma_items_clean(items: Seq<Document>, q: Seq<PathStep>, n: nat)
    requires
        steps_round_trip(q),
        items.len() <= usize::MAX,
        clean_items(items, n),
    ensures
        forall|r: int|
            0 <= r < walk_items(items, q, n).len() ==> steps_round_trip(
                #[trigger] walk_items(items, q, n)[r].steps,
            ),
    decreases items, n,
{
    if n > 0 && n <= items.len() {
        lemma_items_clean(items, q, (n - 1) as nat);
        let x = PathStep::Index((n - 1) as nat);
        lemma_push_round_trips(q, x);
        lemma_walk_clean(items[n - 1], q.push(x));
        let a = walk_items(items, q, (n - 1) as nat);
        let b = walk(items[n - 1], q.push(x));
        assert forall|r: int| 0 <= r < (a + b).len() implies steps_round_trip(#[trigger] (a + b)[r].steps) by {
            if r >= a.len() {
                assert((a + b)[r] == b[r - a.len()]);
            } else {
                assert((a + b)[r] == a[r]);
            }
        }
    }
}

proof fn lemma_command_clean(ms: Seq<Member>, q: Seq<PathStep>, consumed: bool, n: nat)
    requires
        steps_round_trip(q),
        clean_members(ms, n),
    ensures
        forall|r: int|
            0 <= r < walk_command(ms, q, consumed, n).len() ==> steps_round_trip(
                #[trigger] walk_command(ms, q, consumed, n)[r].steps,
            ),
    decreases ms, n,
{
    if n > 0 && n <= ms.len() {
        lemma_command_clean(ms, q, consumed, (n - 1) as nat);
        let m = ms[n - 1];
        if !(command_skips(m.key@, consumed) || !is_container(m.value)) {
            let x = PathStep::Field(m.key@);
            lemma_push_round_trips(q, x);
            lemma_walk_clean(m.value, q.push(x));
            let a = walk_command(ms, q, consumed, (n - 1) as nat);
            let b = walk(m.value, q.push(x));
            assert(walk_command(ms, q, consumed, n) == a + b);
            assert forall|r: int| 0 <= r < (a + b).len() implies steps_round_trip(#[trigger] (a + b)[r].steps) by {
                if r >= a.len() {
                    assert((a + b)[r] == b[r - a.len()]);
                } else {
                    assert((a + b)[r] == a[r]);
                }
            }
        } else {
            assert(walk_command(ms, q, consumed, n) =~= walk_command(ms, q, consumed, (n - 1) as nat));
        }
    }
}

proof fn lemma_plain_clean(ms: Seq<Member>, q: Seq<PathStep>, n: nat)
    requires
        steps_round_trip(q),
        clean_members(ms, n),
    ensures
        forall|r: int|
            0 <= r < walk_plain(ms, q, n).len() ==> steps_round_trip(
                #[trigger] walk_plain(ms, q, n)[r].steps,
            ),
    decreases ms, n,
{
    if n > 0 && n <= ms.len() {
        lemma_plain_clean(ms, q, (n - 1) as nat);
        let m = ms[n - 1];
        let x = PathStep::Field(m.key@);
        lemma_push_round_trips(q, x);
        let a = walk_plain(ms, q, (n - 1) as nat);
        if !is_skipped_key(m.key@) {
            match m.value {
                Document::List(_) | Document::Object(_) => {
                    lemma_walk_clean(m.value, q.push(x));
                    let b = walk(m.value, q.push(x));
                    assert forall|r: int| 0 <= r < (a + b).len() implies steps_round_trip(#[trigger] (a + b)[r].steps) by {
                        if r >= a.len() {
                            assert((a + b)[r] == b[r - a.len()]);
                        } else {
                            assert((a + b)[r] == a[r]);
                        }
                    }
                },
                _ => {},
            }
        }
    }
}

/// Every key path that the walker reports for a document whose keys hold
/// no `.` or `[` decodes back to the steps it was encoded from; the one
/// exception is a document that is a single string, whose path is empty.
pub proof fn lemma_walker_paths_round_trip(d: Document)
    requires
        clean_keys(d),
    ensures
        forall|r: int|
            0 <= r < walk(d, Seq::empty()).len() && (#[trigger] walk(d, Seq::empty())[r]).steps.len() > 0
                ==> decode(encode(walk(d, Seq::empty())[r].steps)) == walk(d, Seq::empty())[r].steps,
{
    lemma_walk_clean(d, Seq::empty());
    assert forall|r: int|
        0 <= r < walk(d, Seq::empty()).len() && (#[trigger] walk(d, Seq::empty())[r]).steps.len() > 0
            implies decode(encode(walk(d, Seq::empty())[r].steps)) == walk(d, Seq::empty())[r].steps by {
        let s = walk(d, Seq::empty())[r].steps;
        assert(steps_round_trip(s));
        assert(round_trips(s));
        lemma_round_trip(s);
    }
}

/// No two members of any mapping in `d` share a key.
pub open spec fn unique_keys(d: Document) -> bool
    decreases d,
{
    match d {
        Document::List(v) => unique_items(v@, v@.len()),
        Document::Object(ms) => unique_members(ms@, ms@.len()) && forall|a: int, b: int|
            0 <= a < b < ms@.len() ==> (#[trigger] ms@[a]).key@ != (#[trigger] ms@[b]).key@,
        _ => true,
    }
}

pub open spec fn unique_items(items: Seq<Document>, n: nat) -> bool
    decreases items, n,
{
    if n == 0 || n > items.len() {
        true
    } else {
        unique_items(items, (n - 1) as nat) && unique_keys(items[n - 1])
    }
}

pub open spec fn unique_members(ms: Seq<Member>, n: nat) -> bool
    decreases ms, n,
{
    if n == 0 || n > ms.len() {
        true
    } else {
        unique_members(ms, (n - 1) as nat) && unique_keys(ms[n - 1].value)
    }
}

/// No two records share their steps.
pub open spec fn distinct_steps(fs: Seq<Found>) -> bool {
    forall|i: int, j: int| 0 <= i < j < fs.len() ==> (#[trigger] fs[i]).steps != (#[trigger] fs[j]).steps
}

proof fn lemma_distinct_concat(a: Seq<Found>, b: Seq<Found>)
    requires
        distinct_steps(a),
        distinct_steps(b),
        forall|i: int, j: int| 0 <= i < a.len() && 0 <= j < b.len() ==> (#[trigger] a[i]).steps != (#[trigger] b[j]).steps,
    ensures
        distinct_steps(a + b),
{
    assert forall|i: int, j: int| 0 <= i < j < (a + b).len() implies (#[trigger] (a + b)[i]).steps != (#[trigger] (a + b)[j]).steps by {
        if j < a.len() {
            assert((a + b)[i] == a[i] && (a + b)[j] == a[j]);
        } else if i >= a.len() {
            assert((a + b)[i] == b[i - a.len()] && (a + b)[j] == b[j - a.len()]);
        } else {
            assert((a + b)[i] == a[i] && (a + b)[j] == b[j - a.len()]);
        }
    }
}

proof fn lemma_unique_items_at(items: Seq<Document>, n: nat, i: int)
    requires
        unique_items(items, n),
        0 <= i < n <= items.len(),
    ensures
        unique_keys(items[i]),
    decreases n,
{
    if i < n - 1 {
        lemma_unique_items_at(items, (n - 1) as nat, i);
    }
}

proof fn lemma_unique_members_at(ms: Seq<Member>, n: nat, i: int)
    requires
        unique_members(ms, n),
        0 <= i < n <= ms.len(),
    ensures
        unique_keys(ms[i].value),
    decreases n,
{
    if i < n - 1 {
        lemma_unique_members_at(ms, (n - 1) as nat, i);
    }
}

proof fn lemma_walk_distinct(d: Document, q: Seq<PathStep>)
    requires
        unique_keys(d),
    ensures
        distinct_steps(walk(d, q)),
    decreases d,
{
    match d {
        Document::Text(s) => {},
        Document::List(v) => {
            lemma_items_distinct(v@, q, v@.len());
            assert(walk(d, q) == walk_items(v@, q, v@.len()));
        },
        Document::Object(ms) => {
            if !is_audio(ms@) {
                match command_shape(ms@) {
                    Some((c, ps)) => {
                        let consumed = known_code(c) is Some;
                        lemma_command_distinct(ms@, q, consumed, ms@.len());
                        lemma_command_prefix(ms@, q, consumed, ms@.len());
                        let t = walk_command(ms@, q, consumed, ms@.len());
                        if let Some(e) = known_code(c) {
                            lemma_policy_prefix(e.slots(), ps, q);
                            let h = walk_policy(e.slots(), ps, q);
                            if let TextSlots::ChoiceList = e.slots() {
                                if ps.len() > 0 {
                                    if let Document::List(cs) = ps[0] {
                                        lemma_choices_shape(cs@, param_steps(q, 0), cs@.len());
                                        assert forall|i: int, j: int| 0 <= i < j < h.len() implies (#[trigger] h[i]).steps != (#[trigger] h[j]).steps by {
                                            assert(h[i].steps.last()->Index_0 < h[j].steps.last()->Index_0);
                                        }
                                    }
                                }
                            }
                            assert(distinct_steps(h));
                            assert forall|i: int, j: int| 0 <= i < h.len() && 0 <= j < t.len() implies (#[trigger] h[i]).steps != (#[trigger] t[j]).steps by {
                                assert(in_parameters(h[i].steps, q));
                                assert(!command_skips(t[j].steps[q.len() as int]->Field_0, true));
                            }
                            lemma_distinct_concat(h, t);
                            assert(walk(d, q) == h + t);
                        } else {
                            assert(walk(d, q) == t);
                        }
                    },
                    None => {
                        lemma_plain_distinct(ms@, q, ms@.len());
                        assert(walk(d, q) == walk_plain(ms@, q, ms@.len()));
                    },
                }
            }
        },
        _ => {},
    }
}

proof fn lemma_items_distinct(items: Seq<Document>, q: Seq<PathStep>, n: nat)
    requires
        unique_items(items, n),
    ensures
        distinct_steps(walk_items(items, q, n)),
        forall|r: int|
            0 <= r < walk_items(items, q, n).len() ==> {
                let s = #[trigger] walk_items(items, q, n)[r].steps;
                &&& s.len() > q.len()
                &&& s[q.len() as int] is Index
                &&& s[q.len() as int]->Index_0 < n
            },
    decreases items, n,
{
    if n > 0 && n <= items.len() {
        lemma_items_distinct(items, q, (n - 1) as nat);
        let x = PathStep::Index((n - 1) as nat);
        lemma_unique_items_at(items, n, n - 1);
        lemma_walk_distinct(items[n - 1], q.push(x));
        lemma_walk_prefix(items[n - 1], q.push(x));
        let a = walk_items(items, q, (n - 1) as nat);
        let b = walk(items[n - 1], q.push(x));
        assert forall|r: int| 0 <= r < b.len() implies {
            let s = #[trigger] b[r].steps;
            s.len() > q.len() && s[q.len() as int] == x
        } by {
            lemma_prefix_push(b[r].steps, q, x);
        }
        assert forall|i: int, j: int| 0 <= i < a.len() && 0 <= j < b.len() implies (#[trigger] a[i]).steps != (#[trigger] b[j]).steps by {
            assert(a[i].steps[q.len() as int] != b[j].steps[q.len() as int]);
        }
        lemma_distinct_concat(a, b);
        assert forall|r: int| 0 <= r < (a + b).len() implies {
            let s = #[trigger] (a + b)[r].steps;
            &&& s.len() > q.len()
            &&& s[q.len() as int] is Index
            &&& s[q.len() as int]->Index_0 < n
        } by {
            if r < a.len() {
                assert((a + b)[r] == a[r]);
            } else {
                assert((a + b)[r] == b[r - a.len()]);
            }
        }
    }
}

/// Some member among the first `n` has key `k`.
pub open spec fn key_among(ms: Seq<Member>, n: nat, k: Seq<char>) -> bool {
    exists|t: int| 0 <= t < n && ms[t].key@ == k
}

proof fn lemma_command_distinct(ms: Seq<Member>, q: Seq<PathStep>, consumed: bool, n: nat)
    requires
        n <= ms.len(),
        unique_members(ms, ms.len()),
        forall|a: int, b: int| 0 <= a < b < ms.len() ==> (#[trigger] ms[a]).key@ != (#[trigger] ms[b]).key@,
    ensures
        distinct_steps(walk_command(ms, q, consumed, n)),
        forall|r: int|
            0 <= r < walk_command(ms, q, consumed, n).len() ==> {
                let s = #[trigger] walk_command(ms, q, consumed, n)[r].steps;
                &&& s.len() > q.len()
                &&& s[q.len() as int] is Field
                &&& key_among(ms, n, s[q.len() as int]->Field_0)
            },
    decreases ms, n,
{
    if n > 0 {
        lemma_command_distinct(ms, q, consumed, (n - 1) as nat);
        let m = ms[n - 1];
        let a = walk_command(ms, q, consumed, (n - 1) as nat);
        if !(command_skips(m.key@, consumed) || !is_container(m.value)) {
            let x = PathStep::Field(m.key@);
            lemma_unique_members_at(ms, ms.len(), n - 1);
            lemma_walk_distinct(m.value, q.push(x));
            lemma_walk_prefix(m.value, q.push(x));
            let b = walk(m.value, q.push(x));
            assert(walk_command(ms, q, consumed, n) == a + b);
            assert forall|r: int| 0 <= r < b.len() implies {
                let s = #[trigger] b[r].steps;
                s.len() > q.len() && s[q.len() as int] == x
            } by {
                lemma_prefix_push(b[r].steps, q, x);
            }
            assert forall|i: int, j: int| 0 <= i < a.len() && 0 <= j < b.len() implies (#[trigger] a[i]).steps != (#[trigger] b[j]).steps by {
                let k = a[i].steps[q.len() as int]->Field_0;
                let t = choose|t: int| 0 <= t < n - 1 && ms[t].key@ == k;
                assert(ms[t].key@ != ms[n - 1].key@);
            }
            lemma_distinct_concat(a, b);
            assert forall|r: int| 0 <= r < (a + b).len() implies {
                let s = #[trigger] (a + b)[r].steps;
                &&& s.len() > q.len()
                &&& s[q.len() as int] is Field
                &&& key_among(ms, n, s[q.len() as int]->Field_0)
            } by {
                if r < a.len() {
                    assert((a + b)[r] == a[r]);
                    let k = a[r].steps[q.len() as int]->Field_0;
                    let t = choose|t: int| 0 <= t < n - 1 && ms[t].key@ == k;
                } else {
                    assert((a + b)[r] == b[r - a.len()]);
                    assert(ms[n - 1].key@ == m.key@);
                }
            }
        } else {
            assert(walk_command(ms, q, consumed, n) =~= a);
            assert forall|r: int| 0 <= r < a.len() implies key_among(ms, n, (#[trigger] a[r]).steps[q.len() as int]->Field_0) by {
                let k = a[r].steps[q.len() as int]->Field_0;
                let t = choose|t: int| 0 <= t < n - 1 && ms[t].key@ == k;
            }
        }
    }
}

proof fn lemma_plain_distinct(ms: Seq<Member>, q: Seq<PathStep>, n: nat)
    requires
        n <= ms.len(),
        unique_members(ms, ms.len()),
        forall|a: int, b: int| 0 <= a < b < ms.len() ==> (#[trigger] ms[a]).key@ != (#[trigger] ms[b]).key@,
    ensures
        distinct_steps(walk_plain(ms, q, n)),
        forall|r: int|
            0 <= r < walk_plain(ms, q, n).len() ==> {
                let s = #[trigger] walk_plain(ms, q, n)[r].steps;
                &&& s.len() > q.len()
                &&& s[q.len() as int] is Field
                &&& key_among(ms, n, s[q.len() as int]->Field_0)
            },
    decreases ms, n,
{
    if n > 0 {
        lemma_plain_distinct(ms, q, (n - 1) as nat);
        let m = ms[n - 1];
        let x = PathStep::Field(m.key@);
        let a = walk_plain(ms, q, (n - 1) as nat);
        let b = walk_plain(ms, q, n).subrange(a.len() as int, walk_plain(ms, q, n).len() as int);
        assert(walk_plain(ms, q, n) =~= a + b);
        if !is_skipped_key(m.key@) {
            match m.value {
                Document::List(_) | Document::Object(_) => {
                    lemma_unique_members_at(ms, ms.len(), n - 1);
                    lemma_walk_distinct(m.value, q.push(x));
                    lemma_walk_prefix(m.value, q.push(x));
                    assert(b =~= walk(m.value, q.push(x)));
                },
                Document::Text(t) => {
                    let st = q.push(x);
                    assert(st.subrange(0, st.len() as int) =~= st);
                    if is_text_key(m.key@) && keeps(t@) {
                        assert(b =~= seq![Found { source: t@, steps: st }]);
                    } else {
                        assert(b.len() == 0);
                    }
                },
                _ => {
                    assert(b.len() == 0);
                },
            }
        } else {
            assert(b.len() == 0);
        }
        assert forall|r: int| 0 <= r < b.len() implies {
            let s = #[trigger] b[r].steps;
            s.len() > q.len() && s[q.len() as int] == x
        } by {
            lemma_prefix_push(b[r].steps, q, x);
        }
        assert(distinct_steps(b));
        assert forall|i: int, j: int| 0 <= i < a.len() && 0 <= j < b.len() implies (#[trigger] a[i]).steps != (#[trigger] b[j]).steps by {
            let k = a[i].steps[q.len() as int]->Field_0;
            let t = choose|t: int| 0 <= t < n - 1 && ms[t].key@ == k;
            assert(ms[t].key@ != ms[n - 1].key@);
        }
        lemma_distinct_concat(a, b);
        assert forall|r: int| 0 <= r < (a + b).len() implies {
            let s = #[trigger] (a + b)[r].steps;
            &&& s.len() > q.len()
            &&& s[q.len() as int] is Field
            &&& key_among(ms, n, s[q.len() as int]->Field_0)
        } by {
            if r < a.len() {
                assert((a + b)[r] == a[r]);
                let k = a[r].steps[q.len() as int]->Field_0;
                let t = choose|t: int| 0 <= t < n - 1 && ms[t].key@ == k;
            } else {
                assert((a + b)[r] == b[r - a.len()]);
            }
        }
    }
}

/// In a document whose mappings have unique keys, no two records that the
/// walker reports share a path.
pub proof fn lemma_walker_paths_distinct(d: Document)
    requires
        unique_keys(d),
    ensures
        distinct_steps(walk(d, Seq::empty())),
{
    lemma_walk_distinct(d, Seq::empty());
}

/// The steps of `s` after its first `n`.
pub open spec fn rest_after(s: Seq<PathStep>, n: nat) -> Seq<PathStep> {
    s.subrange(n as int, s.len() as int)
}

/// Each record of `fs` lies below `q` and leads, inside `t`, to its text.
pub open spec fn lead_to_text(fs: Seq<Found>, q: Seq<PathStep>, t: Tree) -> bool {
    forall|r: int|
        0 <= r < fs.len() ==> {
            let f = #[trigger] fs[r];
            &&& has_prefix(f.steps, q)
            &&& tree_at(t, rest_after(f.steps, q.len())) == Some(Tree::Text(f.source))
        }
}

proof fn lemma_rest_step(s: Seq<PathStep>, q: Seq<PathStep>, x: PathStep)
    requires
        has_prefix(s, q.push(x)),
    ensures
        rest_after(s, q.len()).len() > 0,
        rest_after(s, q.len())[0] == x,
        rest_after(s, q.len()).drop_first() == rest_after(s, q.len() + 1),
{
    lemma_prefix_push(s, q, x);
    assert(rest_after(s, q.len()).drop_first() =~= rest_after(s, q.len() + 1));
}

proof fn lemma_find_unique(ms: Seq<Member>, t: int)
    requires
        0 <= t < ms.len(),
        forall|a: int, b: int| 0 <= a < b < ms.len() ==> (#[trigger] ms[a]).key@ != (#[trigger] ms[b]).key@,
    ensures
        find_entry(entries_of(ms, ms.len()), ms[t].key@) == Some(t),
        find_key(ms, ms[t].key@) == Some(t),
{
    lemma_entries_of(ms, ms.len());
    let es = entries_of(ms, ms.len());
    assert forall|q: int| 0 <= q < t implies es[q].0 != ms[t].key@ by {
        assert(ms[q].key@ != ms[t].key@);
    }
    lemma_find_entry_first(es, ms[t].key@, t, 0);
    lemma_find_entry_matches(ms, ms[t].key@, 0);
}

proof fn lemma_find_entry_first(es: Seq<(Seq<char>, Tree)>, k: Seq<char>, j: int, i: int)
    requires
        0 <= i <= j < es.len(),
        es[j].0 == k,
        forall|q: int| i <= q < j ==> es[q].0 != k,
    ensures
        find_entry_from(es, k, i) == Some(j),
    decreases j - i,
{
    if i < j {
        lemma_find_entry_first(es, k, j, i + 1);
    }
}

proof fn lemma_walk_leads(d: Document, q: Seq<PathStep>)
    requires
        unique_keys(d),
    ensures
        lead_to_text(walk(d, q), q, d@),
    decreases d,
{
    lemma_walk_prefix(d, q);
    match d {
        Document::Text(s) => {
            if keeps(s@) {
                assert(walk(d, q) == seq![Found { source: s@, steps: q }]);
                assert(rest_after(q, q.len()) =~= Seq::<PathStep>::empty());
            }
        },
        Document::List(v) => {
            lemma_items_leads(v@, q, v@.len());
            assert(walk(d, q) == walk_items(v@, q, v@.len()));
        },
        Document::Object(ms) => {
            if !is_audio(ms@) {
                match command_shape(ms@) {
                    Some((c, ps)) => {
                        let consumed = known_code(c) is Some;
                        lemma_command_leads(ms@, q, consumed, ms@.len());
                        let t = walk_command(ms@, q, consumed, ms@.len());
                        if let Some(e) = known_code(c) {
                            let b = find_key(ms@, "parameters"@)->0;
                            crate::document::lemma_find_from_in_range(ms@, "parameters"@, 0);
                            lemma_find_unique(ms@, b);
                            lemma_entries_of(ms@, ms@.len());
                            lemma_policy_leads(e.slots(), ps, q, ms@, b);
                            let h = walk_policy(e.slots(), ps, q);
                            assert(walk(d, q) == h + t);
                            assert forall|r: int| 0 <= r < (h + t).len() implies {
                                let f = #[trigger] (h + t)[r];
                                &&& has_prefix(f.steps, q)
                                &&& tree_at(d@, rest_after(f.steps, q.len())) == Some(Tree::Text(f.source))
                            } by {
                                if r < h.len() {
                                    assert((h + t)[r] == h[r]);
                                } else {
                                    assert((h + t)[r] == t[r - h.len()]);
                                }
                            }
                        } else {
                            assert(walk(d, q) == t);
                        }
                    },
                    None => {
                        lemma_plain_leads(ms@, q, ms@.len());
                        assert(walk(d, q) == walk_plain(ms@, q, ms@.len()));
                    },
                }
            }
        },
        _ => {},
    }
}

proof fn lemma_policy_leads(slots: TextSlots, ps: Seq<Document>, q: Seq<PathStep>, ms: Seq<Member>, b: int)
    requires
        0 <= b < ms.len(),
        ms[b].key@ == "parameters"@,
        ms[b].value matches Document::List(v) && v@ == ps,
        find_entry(entries_of(ms, ms.len()), "parameters"@) == Some(b),
    ensures
        lead_to_text(walk_policy(slots, ps, q), q, Tree::Object(entries_of(ms, ms.len()))),
{
    lemma_policy_prefix(slots, ps, q);
    lemma_entries_of(ms, ms.len());
    let t = Tree::Object(entries_of(ms, ms.len()));
    lemma_trees_of(ps, ps.len());
    assert(entries_of(ms, ms.len())[b].1 == Tree::List(trees_of(ps, ps.len())));
    let h = walk_policy(slots, ps, q);
    let pf = q.push(PathStep::Field("parameters"@));
    assert forall|r: int| 0 <= r < h.len() implies {
        let f = #[trigger] h[r];
        &&& has_prefix(f.steps, q)
        &&& tree_at(t, rest_after(f.steps, q.len())) == Some(Tree::Text(f.source))
    } by {
        let f = h[r];
        let rest = rest_after(f.steps, q.len());
        match slots {
            TextSlots::Slot(i) => {
                assert(f.steps == param_steps(q, i as nat));
                assert(rest =~= seq![PathStep::Field("parameters"@), PathStep::Index(i as nat)]);
                assert(rest.drop_first() =~= seq![PathStep::Index(i as nat)]);
                assert(rest.drop_first().drop_first() =~= Seq::<PathStep>::empty());
                if let Document::Text(sx) = ps[i as int] {
                    assert(f.source == sx@);
                    assert(tree_at(t, rest) == tree_at(entries_of(ms, ms.len())[b].1, rest.drop_first()));
                    assert(tree_at(Tree::List(trees_of(ps, ps.len())), rest.drop_first()) == tree_at(
                        trees_of(ps, ps.len())[i as int],
                        rest.drop_first().drop_first(),
                    ));
                    assert(trees_of(ps, ps.len())[i as int] == Tree::Text(sx@));
                    assert(tree_at(Tree::Text(sx@), rest.drop_first().drop_first()) == Some(Tree::Text(sx@)));
                    assert(tree_at(t, rest) == Some(Tree::Text(f.source)));
                }
            },
            TextSlots::ChoiceList => {
                if let Document::List(cs) = ps[0] {
                    lemma_choices_shape(cs@, param_steps(q, 0), cs@.len());
                    lemma_choices_text(cs@, param_steps(q, 0), cs@.len());
                    lemma_trees_of(cs@, cs@.len());
                    let n = f.steps.last()->Index_0;
                    assert(f.steps =~= param_steps(q, 0).push(PathStep::Index(n)));
                    assert(rest =~= seq![PathStep::Field("parameters"@), PathStep::Index(0), PathStep::Index(n)]);
                    assert(rest.drop_first() =~= seq![PathStep::Index(0), PathStep::Index(n)]);
                    assert(rest.drop_first().drop_first() =~= seq![PathStep::Index(n)]);
                    assert(rest.drop_first().drop_first().drop_first() =~= Seq::<PathStep>::empty());
                    assert(tree_at(t, rest) == tree_at(entries_of(ms, ms.len())[b].1, rest.drop_first()));
                    assert(tree_at(Tree::List(trees_of(ps, ps.len())), rest.drop_first()) == tree_at(
                        trees_of(ps, ps.len())[0],
                        rest.drop_first().drop_first(),
                    ));
                    assert(trees_of(ps, ps.len())[0] == Tree::List(trees_of(cs@, cs@.len())));
                    if let Document::Text(sx) = cs@[n as int] {
                        assert(trees_of(cs@, cs@.len())[n as int] == Tree::Text(sx@));
                        assert(f.source == sx@);
                        assert(tree_at(Tree::List(trees_of(cs@, cs@.len())), rest.drop_first().drop_first()) == tree_at(Tree::Text(sx@), rest.drop_first().drop_first().drop_first()));
                        assert(tree_at(Tree::Text(sx@), rest.drop_first().drop_first().drop_first()) == Some(Tree::Text(sx@)));
                        assert(tree_at(t, rest) == Some(Tree::Text(f.source)));
                    }
                }
            },
            TextSlots::Nothing => {},
        }
    }
}

proof fn lemma_choices_text(cs: Seq<Document>, base: Seq<PathStep>, n: nat)
    ensures
        forall|r: int|
            0 <= r < walk_choices(cs, base, n).len() ==> {
                let f = #[trigger] walk_choices(cs, base, n)[r];
                let i = f.steps.last()->Index_0 as int;
                &&& 0 <= i < cs.len()
                &&& cs[i] matches Document::Text(s) && s@ == f.source
            },
    decreases n,
{
    if n > 0 && n <= cs.len() {
        lemma_choices_text(cs, base, (n - 1) as nat);
    }
}

proof fn lemma_items_leads(items: Seq<Document>, q: Seq<PathStep>, n: nat)
    requires
        unique_items(items, n),
        n <= items.len(),
    ensures
        lead_to_text(walk_items(items, q, n), q, Tree::List(trees_of(items, items.len()))),
    decreases items, n,
{
    lemma_trees_of(items, items.len());
    if n > 0 {
        lemma_items_leads(items, q, (n - 1) as nat);
        let x = PathStep::Index((n - 1) as nat);
        lemma_unique_items_at(items, n, n - 1);
        lemma_walk_leads(items[n - 1], q.push(x));
        lemma_walk_prefix(items[n - 1], q.push(x));
        let a = walk_items(items, q, (n - 1) as nat);
        let b = walk(items[n - 1], q.push(x));
        let t = Tree::List(trees_of(items, items.len()));
        assert forall|r: int| 0 <= r < (a + b).len() implies {
            let f = #[trigger] (a + b)[r];
            &&& has_prefix(f.steps, q)
            &&& tree_at(t, rest_after(f.steps, q.len())) == Some(Tree::Text(f.source))
        } by {
            if r < a.len() {
                assert((a + b)[r] == a[r]);
            } else {
                let f = b[r - a.len()];
                assert((a + b)[r] == f);
                lemma_rest_step(f.steps, q, x);
                lemma_prefix_push(f.steps, q, x);
            }
        }
    }
}

proof fn lemma_command_leads(ms: Seq<Member>, q: Seq<PathStep>, consumed: bool, n: nat)
    requires
        n <= ms.len(),
        unique_members(ms, ms.len()),
        forall|a: int, b: int| 0 <= a < b < ms.len() ==> (#[trigger] ms[a]).key@ != (#[trigger] ms[b]).key@,
    ensures
        lead_to_text(walk_command(ms, q, consumed, n), q, Tree::Object(entries_of(ms, ms.len()))),
    decreases ms, n,
{
    lemma_entries_of(ms, ms.len());
    if n > 0 {
        lemma_command_leads(ms, q, consumed, (n - 1) as nat);
        let m = ms[n - 1];
        let a = walk_command(ms, q, consumed, (n - 1) as nat);
        if !(command_skips(m.key@, consumed) || !is_container(m.value)) {
            let x = PathStep::Field(m.key@);
            lemma_unique_members_at(ms, ms.len(), n - 1);
            lemma_walk_leads(m.value, q.push(x));
            lemma_walk_prefix(m.value, q.push(x));
            lemma_find_unique(ms, n - 1);
            let b = walk(m.value, q.push(x));
            let t = Tree::Object(entries_of(ms, ms.len()));
            assert(walk_command(ms, q, consumed, n) == a + b);
            assert forall|r: int| 0 <= r < (a + b).len() implies {
                let f = #[trigger] (a + b)[r];
                &&& has_prefix(f.steps, q)
                &&& tree_at(t, rest_after(f.steps, q.len())) == Some(Tree::Text(f.source))
            } by {
                if r < a.len() {
                    assert((a + b)[r] == a[r]);
                } else {
                    let f = b[r - a.len()];
                    assert((a + b)[r] == f);
                    lemma_rest_step(f.steps, q, x);
                    lemma_prefix_push(f.steps, q, x);
                }
            }
        } else {
            assert(walk_command(ms, q, consumed, n) =~= a);
        }
    }
}

proof fn lemma_plain_leads(ms: Seq<Member>, q: Seq<PathStep>, n: nat)
    requires
        n <= ms.len(),
        unique_members(ms, ms.len()),
        forall|a: int, b: int| 0 <= a < b < ms.len() ==> (#[trigger] ms[a]).key@ != (#[trigger] ms[b]).key@,
    ensures
        lead_to_text(walk_plain(ms, q, n), q, Tree::Object(entries_of(ms, ms.len()))),
    decreases ms, n,
{
    lemma_entries_of(ms, ms.len());
    if n > 0 {
        lemma_plain_leads(ms, q, (n - 1) as nat);
        let m = ms[n - 1];
        let x = PathStep::Field(m.key@);
        let a = walk_plain(ms, q, (n - 1) as nat);
        let b = walk_plain(ms, q, n).subrange(a.len() as int, walk_plain(ms, q, n).len() as int);
        assert(walk_plain(ms, q, n) =~= a + b);
        lemma_find_unique(ms, n - 1);
        let t = Tree::Object(entries_of(ms, ms.len()));
        if !is_skipped_key(m.key@) {
            match m.value {
                Document::List(_) | Document::Object(_) => {
                    lemma_unique_members_at(ms, ms.len(), n - 1);
                    lemma_walk_leads(m.value, q.push(x));
                    lemma_walk_prefix(m.value, q.push(x));
                    assert(b =~= walk(m.value, q.push(x)));
                },
                Document::Text(s) => {
                    let st = q.push(x);
                    assert(st.subrange(0, st.len() as int) =~= st);
                    if is_text_key(m.key@) && keeps(s@) {
                        assert(b =~= seq![Found { source: s@, steps: st }]);
                        assert(rest_after(st, q.len()) =~= seq![x]);
                        assert(seq![x].drop_first() =~= Seq::<PathStep>::empty());
                        assert(entries_of(ms, ms.len())[n - 1].1 == Tree::Text(s@));
                        assert(tree_at(t, seq![x]) == tree_at(Tree::Text(s@), seq![x].drop_first()));
                        assert(tree_at(Tree::Text(s@), Seq::<PathStep>::empty()) == Some(Tree::Text(s@)));
                        assert(st.subrange(0, q.len() as int) =~= q);
                        assert(b[0].steps == st && b[0].source == s@);
                        assert(lead_to_text(b, q, t));
                    } else {
                        assert(b.len() == 0);
                    }
                },
                _ => {
                    assert(b.len() == 0);
                },
            }
        } else {
            assert(b.len() == 0);
        }
        assert forall|r: int| 0 <= r < (a + b).len() implies {
            let f = #[trigger] (a + b)[r];
            &&& has_prefix(f.steps, q)
            &&& tree_at(t, rest_after(f.steps, q.len())) == Some(Tree::Text(f.source))
        } by {
            if r < a.len() {
                assert((a + b)[r] == a[r]);
            } else {
                let f = b[r - a.len()];
                assert((a + b)[r] == f);
                if m.value is List || m.value is Object {
                    lemma_rest_step(f.steps, q, x);
                    lemma_prefix_push(f.steps, q, x);
                }
            }
        }
    }
}

/// Every record that the walker reports for a document whose mappings have
/// unique keys leads, inside that document, to the very text it reports.
pub proof fn lemma_walker_paths_lead_to_text(d: Document)
    requires
        unique_keys(d),
    ensures
        forall|r: int|
            0 <= r < walk(d, Seq::empty()).len() ==> tree_at(
                d@,
                (#[trigger] walk(d, Seq::empty())[r]).steps,
            ) == Some(Tree::Text(walk(d, Seq::empty())[r].source)),
{
    lemma_walk_leads(d, Seq::empty());
    assert forall|r: int| 0 <= r < walk(d, Seq::empty()).len() implies tree_at(
        d@,
        (#[trigger] walk(d, Seq::empty())[r]).steps,
    ) == Some(Tree::Text(walk(d, Seq::empty())[r].source)) by {
        let st = walk(d, Seq::empty())[r].steps;
        assert(rest_after(st, 0) =~= st);
    }
}

proof fn lemma_set_at_scalar(t: Tree, steps: Seq<PathStep>, v: Seq<char>)
    requires
        steps.len() > 0,
        tree_at(t, steps) matches Some(l) && is_scalar(l),
    ensures
        set_tree(t, steps, v) is Some,
    decreases steps.len(),
{
    if steps.len() > 1 {
        match steps[0] {
            PathStep::Field(k) => {
                let es = t->Object_0;
                let j = find_entry(es, k)->0;
                lemma_set_at_scalar(es[j].1, steps.drop_first(), v);
            },
            PathStep::Index(n) => {
                lemma_set_at_scalar(t->List_0[n as int], steps.drop_first(), v);
            },
            PathStep::Malformed => {},
        }
    } else {
        assert(steps.drop_first() =~= Seq::<PathStep>::empty());
        match steps[0] {
            PathStep::Field(k) => {
                let es = t->Object_0;
                let j = find_entry(es, k)->0;
                assert(tree_at(es[j].1, steps.drop_first()) == Some(es[j].1));
            },
            PathStep::Index(n) => {
                let xs = t->List_0;
                assert(tree_at(xs[n as int], steps.drop_first()) == Some(xs[n as int]));
            },
            PathStep::Malformed => {},
        }
    }
}

/// In a document whose keys are unique, non-empty and free of `.` and `[`,
/// the key path of every record that the walker reports resolves: writing a
/// translation there succeeds. The one exception is a document that is a
/// single string, whose path is empty.
pub proof fn lemma_walker_paths_write_back(d: Document, v: Seq<char>)
    requires
        clean_keys(d),
        unique_keys(d),
    ensures
        forall|r: int|
            0 <= r < walk(d, Seq::empty()).len() && (#[trigger] walk(d, Seq::empty())[r]).steps.len() > 0
                ==> set_path(d@, encode(walk(d, Seq::empty())[r].steps), v) is Some,
{
    lemma_walker_paths_round_trip(d);
    lemma_walker_paths_lead_to_text(d);
    assert forall|r: int|
        0 <= r < walk(d, Seq::empty()).len() && (#[trigger] walk(d, Seq::empty())[r]).steps.len() > 0
            implies set_path(d@, encode(walk(d, Seq::empty())[r].steps), v) is Some by {
        let f = walk(d, Seq::empty())[r];
        lemma_set_at_scalar(d@, f.steps, v);
    }
}

/// In a document whose keys are unique, non-empty and free of `.` and `[`,
/// no two records that the walker reports carry the same key path text: in
/// particular no parameter slot of a command is reported twice.
pub proof fn lemma_walker_keys_distinct(d: Document)
    requires
        clean_keys(d),
        unique_keys(d),
    ensures
        forall|i: int, j: int|
            0 <= i < j < walk(d, Seq::empty()).len() ==> encode(
                (#[trigger] walk(d, Seq::empty())[i]).steps,
            ) != encode((#[trigger] walk(d, Seq::empty())[j]).steps),
{
    let w = walk(d, Seq::empty());
    lemma_walker_paths_distinct(d);
    lemma_walker_paths_round_trip(d);
    assert forall|i: int, j: int| 0 <= i < j < w.len() implies encode((#[trigger] w[i]).steps) != encode(
        (#[trigger] w[j]).steps,
    ) by {
        if w[i].steps.len() > 0 && w[j].steps.len() > 0 {
            if encode(w[i].steps) == encode(w[j].steps) {
                assert(decode(encode(w[i].steps)) == w[i].steps);
                assert(decode(encode(w[j].steps)) == w[j].steps);
            }
        } else {
            lemma_root_record_alone(d, i, j);
        }
    }
}

proof fn lemma_root_record_alone(d: Document, i: int, j: int)
    requires
        0 <= i < j < walk(d, Seq::empty()).len(),
    ensures
        walk(d, Seq::empty())[i].steps.len() > 0,
        walk(d, Seq::empty())[j].steps.len() > 0,
{
    lemma_walk_prefix(d, Seq::empty());
    match d {
        Document::Text(_) => {},
        Document::List(v) => {
            lemma_items_prefix_len(v@, v@.len());
            assert(walk(d, Seq::empty()) == walk_items(v@, Seq::empty(), v@.len()));
        },
        Document::Object(ms) => {
            if !is_audio(ms@) {
                match command_shape(ms@) {
                    Some((c, ps)) => {
                        lemma_command_prefix(ms@, Seq::empty(), known_code(c) is Some, ms@.len());
                        let t = walk_command(ms@, Seq::empty(), known_code(c) is Some, ms@.len());
                        if let Some(e) = known_code(c) {
                            lemma_policy_prefix(e.slots(), ps, Seq::empty());
                            let h = walk_policy(e.slots(), ps, Seq::empty());
                            assert(walk(d, Seq::empty()) == h + t);
                            assert(forall|r: int| 0 <= r < (h + t).len() ==> (#[trigger] (h + t)[r]).steps.len() > 0) by {
                                assert forall|r: int| 0 <= r < (h + t).len() implies (#[trigger] (h + t)[r]).steps.len() > 0 by {
                                    if r < h.len() {
                                        assert((h + t)[r] == h[r]);
                                    } else {
                                        assert((h + t)[r] == t[r - h.len()]);
                                    }
                                }
                            }
                        } else {
                            assert(walk(d, Seq::empty()) == t);
                        }
                    },
                    None => {
                        lemma_plain_prefix_len(ms@, ms@.len());
                        assert(walk(d, Seq::empty()) == walk_plain(ms@, Seq::empty(), ms@.len()));
                    },
                }
            }
        },
        _ => {},
    }
}

proof fn lemma_items_prefix_len(items: Seq<Document>, n: nat)
    ensures
        forall|r: int|
            0 <= r < walk_items(items, Seq::empty(), n).len() ==> (#[trigger] walk_items(
                items,
                Seq::empty(),
                n,
            )[r]).steps.len() > 0,
    decreases n,
{
    if n > 0 && n <= items.len() {
        lemma_items_prefix_len(items, (n - 1) as nat);
        let x = PathStep::Index((n - 1) as nat);
        let q = Seq::<PathStep>::empty();
        lemma_walk_prefix(items[n - 1], q.push(x));
        let a = walk_items(items, q, (n - 1) as nat);
        let b = walk(items[n - 1], q.push(x));
        assert forall|r: int| 0 <= r < (a + b).len() implies (#[trigger] (a + b)[r]).steps.len() > 0 by {
            if r < a.len() {
                assert((a + b)[r] == a[r]);
            } else {
                assert((a + b)[r] == b[r - a.len()]);
                lemma_prefix_push(b[r - a.len()].steps, q, x);
            }
        }
    }
}

proof fn lemma_plain_prefix_len(ms: Seq<Member>, n: nat)
    ensures
        forall|r: int|
            0 <= r < walk_plain(ms, Seq::empty(), n).len() ==> (#[trigger] walk_plain(
                ms,
                Seq::empty(),
                n,
            )[r]).steps.len() > 0,
    decreases n,
{
    if n > 0 && n <= ms.len() {
        lemma_plain_prefix_len(ms, (n - 1) as nat);
        let q = Seq::<PathStep>::empty();
        let m = ms[n - 1];
        let x = PathStep::Field(m.key@);
        let a = walk_plain(ms, q, (n - 1) as nat);
        let b = walk_plain(ms, q, n).subrange(a.len() as int, walk_plain(ms, q, n).len() as int);
        assert(walk_plain(ms, q, n) =~= a + b);
        if !is_skipped_key(m.key@) {
            match m.value {
                Document::List(_) | Document::Object(_) => {
                    lemma_walk_prefix(m.value, q.push(x));
                    assert(b =~= walk(m.value, q.push(x)));
                    assert forall|r: int| 0 <= r < b.len() implies (#[trigger] b[r]).steps.len() > 0 by {
                        lemma_prefix_push(b[r].steps, q, x);
                    }
                },
                Document::Text(t) => {
                    if is_text_key(m.key@) && keeps(t@) {
                        assert(b =~= seq![Found { source: t@, steps: q.push(x) }]);
                    } else {
                        assert(b.len() == 0);
                    }
                },
                _ => {
                    assert(b.len() == 0);
                },
            }
        } else {
            assert(b.len() == 0);
        }
        assert forall|r: int| 0 <= r < (a + b).len() implies (#[trigger] (a + b)[r]).steps.len() > 0 by {
            if r < a.len() {
                assert((a + b)[r] == a[r]);
            } else {
                assert((a + b)[r] == b[r - a.len()]);
            }
        }
    }
}

} // verus!
