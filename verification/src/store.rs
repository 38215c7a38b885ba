//! The in-memory note graph: notes with ordered, duplicate-tolerant child
//! links, a derived parent index, and a monotonic revision counter.
//!
//! Every structural mutation runs a consistency pass that prunes child
//! references to notes that do not exist and rebuilds the derived parent
//! index from scratch, so a caller never observes a dangling reference.

use vstd::prelude::*;

use crate::ids::NoteId;

verus! {

/// What a note holds besides its id: its text and its ordered children.
/// The child list may mention the same note several times.
pub struct NoteInfo {
    pub text: String,
    pub children: Vec<NoteId>,
}

/// A note as handed out by [`Store::get`]: the note's own data together
/// with the ids of the notes that list it as a child.
pub struct RichNote {
    pub id: NoteId,
    pub text: String,
    pub children: Vec<NoteId>,
    pub parents: Vec<NoteId>,
}

/// The mathematical content of a note.
pub ghost struct NoteRec {
    pub text: Seq<char>,
    pub children: Seq<NoteId>,
}

/// One derived fact: `parent` lists `child` among its children `count`
/// times, with `count` at least one.
#[derive(Clone, Copy)]
pub struct ParentLink {
    pub child: NoteId,
    pub parent: NoteId,
    pub count: usize,
}

/// How many times `id` occurs in a child list.
pub open spec fn occ(children: Seq<NoteId>, id: NoteId) -> nat
    decreases children.len(),
{
    if children.len() == 0 {
        0
    } else {
        occ(children.drop_last(), id) + if children.last() == id {
            1nat
        } else {
            0nat
        }
    }
}

/// The parents of `id` in a graph: every note that lists `id` at least once.
pub open spec fn parents_of(m: Map<NoteId, NoteRec>, id: NoteId) -> Set<NoteId> {
    Set::new(|p: NoteId| m.dom().contains(p) && occ(m[p].children, id) > 0)
}

/// Every child reference in the graph points at an existing note.
pub open spec fn graph_closed(m: Map<NoteId, NoteRec>) -> bool {
    forall|k: NoteId, j: int|
        m.dom().contains(k) && 0 <= j < m[k].children.len() ==> m.dom().contains(
            #[trigger] m[k].children[j],
        )
}

/// A child list with the references outside `dom` pruned away.
pub open spec fn keep_existing(children: Seq<NoteId>, dom: Set<NoteId>) -> Seq<NoteId>
    decreases children.len(),
{
    if children.len() == 0 {
        Seq::empty()
    } else {
        let rest = keep_existing(children.drop_last(), dom);
        if dom.contains(children.last()) {
            rest.push(children.last())
        } else {
            rest
        }
    }
}

/// A child list with every occurrence of `id` removed.
pub open spec fn remove_all(children: Seq<NoteId>, id: NoteId) -> Seq<NoteId>
    decreases children.len(),
{
    if children.len() == 0 {
        Seq::empty()
    } else {
        let rest = remove_all(children.drop_last(), id);
        if children.last() == id {
            rest
        } else {
            rest.push(children.last())
        }
    }
}

/// The graph after a consistency pass: the same notes, each child list
/// pruned to the notes that exist.
pub open spec fn prune_graph(m: Map<NoteId, NoteRec>) -> Map<NoteId, NoteRec> {
    Map::new(
        |k: NoteId| m.dom().contains(k),
        |k: NoteId| NoteRec { text: m[k].text, children: keep_existing(m[k].children, m.dom()) },
    )
}

/// The graph after removing the note `id`: the note's entry goes away and
/// every other child list drops its references to `id`.
pub open spec fn remove_note(m: Map<NoteId, NoteRec>, id: NoteId) -> Map<NoteId, NoteRec> {
    Map::new(
        |k: NoteId| m.dom().contains(k) && k != id,
        |k: NoteId| NoteRec { text: m[k].text, children: remove_all(m[k].children, id) },
    )
}

/// The index a signed child position resolves to in a list of `n` children:
/// non-negative positions clamp to the end, negative positions count from
/// the end, `-1` meaning one past the last element.
pub open spec fn resolve_position_spec(n: nat, p: int) -> nat {
    if p >= 0 {
        if p <= n {
            p as nat
        } else {
            n
        }
    } else {
        let k = -p - 1;
        if k <= n {
            (n - k) as nat
        } else {
            0
        }
    }
}

/// The index of the `iteration`-th occurrence (0-based, in list order) of
/// `id` in a child list, if that many occurrences exist.
pub open spec fn resolve_iteration_spec(children: Seq<NoteId>, id: NoteId, iteration: nat) -> Option<
    int,
>
    decreases children.len(),
{
    if children.len() == 0 {
        None
    } else if children[0] == id {
        if iteration == 0 {
            Some(0)
        } else {
            match resolve_iteration_spec(children.drop_first(), id, (iteration - 1) as nat) {
                Some(i) => Some(i + 1),
                None => None,
            }
        }
    } else {
        match resolve_iteration_spec(children.drop_first(), id, iteration) {
            Some(i) => Some(i + 1),
            None => None,
        }
    }
}

/// The graph after moving a child: occurrence `fidx` of the child leaves
/// `from_id`'s list, and the child enters `to_id`'s list at the index the
/// signed position resolves to against the remaining sequence, the one the
/// removal left behind. When the two notes differ, that is just `to_id`'s
/// list; when they are the same, the position counts positions of the
/// shortened list, not of the original one.
pub open spec fn moved_graph(
    m: Map<NoteId, NoteRec>,
    child_id: NoteId,
    from_id: NoteId,
    fidx: int,
    to_id: NoteId,
    to_position: int,
) -> Map<NoteId, NoteRec> {
    let removed = m.insert(
        from_id,
        NoteRec { text: m[from_id].text, children: m[from_id].children.remove(fidx) },
    );
    let tpos = resolve_position_spec(removed[to_id].children.len(), to_position) as int;
    removed.insert(
        to_id,
        NoteRec { text: m[to_id].text, children: removed[to_id].children.insert(tpos, child_id) },
    )
}

/// The notes as an association sequence mapped to a graph; a later entry
/// with the same id would win, but the store keeps ids unique.
pub open spec fn entries_map(s: Seq<(NoteId, NoteInfo)>) -> Map<NoteId, NoteRec>
    decreases s.len(),
{
    if s.len() == 0 {
        Map::empty()
    } else {
        entries_map(s.drop_last()).insert(
            s.last().0,
            NoteRec { text: s.last().1.text@, children: s.last().1.children@ },
        )
    }
}

/// Whether an id appears as a key of the association sequence.
pub open spec fn has_key(s: Seq<(NoteId, NoteInfo)>, id: NoteId) -> bool {
    exists|i: int| 0 <= i < s.len() && (#[trigger] s[i]).0 == id
}

/// No id appears twice as a key.
pub open spec fn unique_keys(s: Seq<(NoteId, NoteInfo)>) -> bool {
    forall|i: int, j: int| 0 <= i < j < s.len() ==> (#[trigger] s[i]).0 != (#[trigger] s[j]).0
}

/// The total count the parent table gives for a (child, parent) pair.
pub open spec fn table_count(t: Seq<ParentLink>, child: NoteId, parent: NoteId) -> nat
    decreases t.len(),
{
    if t.len() == 0 {
        0
    } else {
        table_count(t.drop_last(), child, parent) + if t.last().child == child && t.last().parent
            == parent {
            t.last().count as nat
        } else {
            0nat
        }
    }
}

/// The count the notes themselves give for a (child, parent) pair: how many
/// times the entry keyed `parent` lists `child`.
pub open spec fn derived_count(s: Seq<(NoteId, NoteInfo)>, child: NoteId, parent: NoteId) -> nat
    decreases s.len(),
{
    if s.len() == 0 {
        0
    } else {
        derived_count(s.drop_last(), child, parent) + if s.last().0 == parent {
            occ(s.last().1.children@, child)
        } else {
            0nat
        }
    }
}

/// Every link of the table has a positive count.
pub open spec fn counts_pos(t: Seq<ParentLink>) -> bool {
    forall|i: int| 0 <= i < t.len() ==> (#[trigger] t[i]).count > 0
}

/// No (child, parent) pair appears in two links.
pub open spec fn pair_unique(t: Seq<ParentLink>) -> bool {
    forall|i: int, j: int|
        0 <= i < j < t.len() ==> !((#[trigger] t[i]).child == (#[trigger] t[j]).child && t[i].parent
            == t[j].parent)
}

/// Every parent a link names is a key of the notes.
pub open spec fn parents_exist(t: Seq<ParentLink>, s: Seq<(NoteId, NoteInfo)>) -> bool {
    forall|i: int| 0 <= i < t.len() ==> has_key(s, (#[trigger] t[i]).parent)
}

/// Some link of the table names this parent.
pub open spec fn parent_listed(t: Seq<ParentLink>, p: NoteId) -> bool {
    exists|j: int| 0 <= j < t.len() && (#[trigger] t[j]).parent == p
}

/// Structure of the parent table: positive counts, no repeated pair, every
/// parent an existing note.
pub open spec fn table_wf(t: Seq<ParentLink>, s: Seq<(NoteId, NoteInfo)>) -> bool {
    &&& counts_pos(t)
    &&& pair_unique(t)
    &&& parents_exist(t, s)
}

/// Whether the table holds a link for the pair, looking only at the first
/// `k` entries.
pub open spec fn table_has_upto(t: Seq<ParentLink>, child: NoteId, parent: NoteId, k: int) -> bool {
    exists|j: int|
        0 <= j < k && (#[trigger] t[j]).child == child && t[j].parent == parent
}

/// Whether the table holds a link for the pair.
pub open spec fn table_has(t: Seq<ParentLink>, child: NoteId, parent: NoteId) -> bool {
    table_has_upto(t, child, parent, t.len() as int)
}

/// The graph's domain is exactly the keys of the association sequence.
pub proof fn lemma_entries_map_dom(s: Seq<(NoteId, NoteInfo)>)
    ensures
        forall|k: NoteId| entries_map(s).dom().contains(k) <==> has_key(s, k),
    decreases s.len(),
{
    if s.len() > 0 {
        lemma_entries_map_dom(s.drop_last());
        assert forall|k: NoteId| entries_map(s).dom().contains(k) <==> has_key(s, k) by {
            if entries_map(s).dom().contains(k) {
                if k == s.last().0 {
                    assert(s[s.len() - 1].0 == k);
                } else {
                    assert(entries_map(s.drop_last()).dom().contains(k));
                    assert(has_key(s.drop_last(), k));
                    let i = choose|i: int|
                        0 <= i < s.drop_last().len() && (#[trigger] s.drop_last()[i]).0 == k;
                    assert(s[i].0 == k);
                }
            }
            if has_key(s, k) {
                let i = choose|i: int| 0 <= i < s.len() && (#[trigger] s[i]).0 == k;
                if i < s.len() - 1 {
                    assert(s.drop_last()[i].0 == k);
                    assert(has_key(s.drop_last(), k));
                }
            }
        }
    }
}

/// With unique keys, the graph maps each key of the sequence to the
/// content stored beside it.
pub proof fn lemma_entries_map_index(s: Seq<(NoteId, NoteInfo)>, i: int)
    requires
        unique_keys(s),
        0 <= i < s.len(),
    ensures
        entries_map(s).dom().contains(s[i].0),
        entries_map(s)[s[i].0] == (NoteRec { text: s[i].1.text@, children: s[i].1.children@ }),
    decreases s.len(),
{
    if i < s.len() - 1 {
        assert(unique_keys(s.drop_last()));
        assert(s.drop_last()[i] == s[i]);
        lemma_entries_map_index(s.drop_last(), i);
        assert(s.last().0 != s[i].0);
    }
}

/// A pair whose parent is no key of the notes counts zero.
pub proof fn lemma_derived_count_absent(s: Seq<(NoteId, NoteInfo)>, child: NoteId, parent: NoteId)
    requires
        !has_key(s, parent),
    ensures
        derived_count(s, child, parent) == 0,
    decreases s.len(),
{
    if s.len() > 0 {
        assert(s[s.len() - 1].0 != parent);
        assert forall|i: int| 0 <= i < s.drop_last().len() implies (#[trigger] s.drop_last()[i]).0
            != parent by {
            assert(s[i].0 == s.drop_last()[i].0);
        }
        lemma_derived_count_absent(s.drop_last(), child, parent);
    }
}

/// With unique keys, the derived count for entry `i`'s key is exactly the
/// occurrence count in that entry's child list.
pub proof fn lemma_derived_count_key(s: Seq<(NoteId, NoteInfo)>, i: int, child: NoteId)
    requires
        unique_keys(s),
        0 <= i < s.len(),
    ensures
        derived_count(s, child, s[i].0) == occ(s[i].1.children@, child),
    decreases s.len(),
{
    if i == s.len() - 1 {
        assert forall|j: int| 0 <= j < s.drop_last().len() implies (#[trigger] s.drop_last()[j]).0
            != s[i].0 by {
            assert(s[j].0 == s.drop_last()[j].0);
        }
        lemma_derived_count_absent(s.drop_last(), child, s[i].0);
    } else {
        assert(unique_keys(s.drop_last()));
        assert(s.drop_last()[i] == s[i]);
        lemma_derived_count_key(s.drop_last(), i, child);
        assert(s.last().0 != s[i].0);
    }
}

/// A positive derived count names an existing parent.
pub proof fn lemma_derived_count_pos_has_key(
    s: Seq<(NoteId, NoteInfo)>,
    child: NoteId,
    parent: NoteId,
)
    requires
        derived_count(s, child, parent) > 0,
    ensures
        has_key(s, parent),
    decreases s.len(),
{
    if s.len() > 0 {
        if s.last().0 == parent {
            assert(s[s.len() - 1].0 == parent);
        } else {
            lemma_derived_count_pos_has_key(s.drop_last(), child, parent);
            let i = choose|i: int|
                0 <= i < s.drop_last().len() && (#[trigger] s.drop_last()[i]).0 == parent;
            assert(s[i].0 == parent);
        }
    }
}

/// Without a link for the pair, the table counts zero for it.
pub proof fn lemma_table_count_no_link(t: Seq<ParentLink>, child: NoteId, parent: NoteId)
    requires
        !table_has(t, child, parent),
    ensures
        table_count(t, child, parent) == 0,
    decreases t.len(),
{
    if t.len() > 0 {
        assert(!(t[t.len() - 1].child == child && t[t.len() - 1].parent == parent));
        assert forall|j: int|
            0 <= j < t.drop_last().len() implies !((#[trigger] t.drop_last()[j]).child == child
            && t.drop_last()[j].parent == parent) by {
            assert(t[j] == t.drop_last()[j]);
        }
        lemma_table_count_no_link(t.drop_last(), child, parent);
    }
}

/// With positive counts, a link for the pair makes the table's count for
/// it positive.
pub proof fn lemma_table_count_link_pos(t: Seq<ParentLink>, child: NoteId, parent: NoteId)
    requires
        table_has(t, child, parent),
        forall|i: int| 0 <= i < t.len() ==> (#[trigger] t[i]).count > 0,
    ensures
        table_count(t, child, parent) > 0,
    decreases t.len(),
{
    if t.len() > 0 {
        if t[t.len() - 1].child == child && t[t.len() - 1].parent == parent {
        } else {
            let j = choose|j: int|
                0 <= j < t.len() && (#[trigger] t[j]).child == child && t[j].parent == parent;
            assert(t.drop_last()[j] == t[j]);
            lemma_table_count_link_pos(t.drop_last(), child, parent);
        }
    }
}

/// A child cannot occur more often than the list is long.
pub proof fn lemma_occ_le_len(s: Seq<NoteId>, id: NoteId)
    ensures
        occ(s, id) <= s.len(),
    decreases s.len(),
{
    if s.len() > 0 {
        lemma_occ_le_len(s.drop_last(), id);
    }
}

/// Pruned child lists only hold references into the domain they were
/// pruned against.
pub proof fn lemma_keep_existing_subset(s: Seq<NoteId>, dom: Set<NoteId>)
    ensures
        forall|x: NoteId| #[trigger] keep_existing(s, dom).contains(x) ==> dom.contains(x),
    decreases s.len(),
{
    if s.len() > 0 {
        lemma_keep_existing_subset(s.drop_last(), dom);
        let rest = keep_existing(s.drop_last(), dom);
        assert forall|x: NoteId| #[trigger]
            keep_existing(s, dom).contains(x) implies dom.contains(x) by {
            if dom.contains(s.last()) {
                let r = keep_existing(s, dom);
                let i = choose|i: int| 0 <= i < r.len() && r[i] == x;
                if i < r.len() - 1 {
                    assert(rest[i] == x);
                    assert(rest.contains(x));
                }
            }
        }
    }
}

/// Pruning a list whose references all exist changes nothing.
pub proof fn lemma_keep_existing_noop(s: Seq<NoteId>, dom: Set<NoteId>)
    requires
        forall|i: int| 0 <= i < s.len() ==> dom.contains(#[trigger] s[i]),
    ensures
        keep_existing(s, dom) == s,
    decreases s.len(),
{
    if s.len() > 0 {
        assert forall|i: int|
            0 <= i < s.drop_last().len() implies dom.contains(#[trigger] s.drop_last()[i]) by {
            assert(s[i] == s.drop_last()[i]);
        }
        lemma_keep_existing_noop(s.drop_last(), dom);
        assert(dom.contains(s[s.len() - 1]));
        assert(keep_existing(s, dom) =~= s);
    }
}

/// On a list whose references all exist, pruning against the domain less
/// one note removes exactly that note's occurrences.
pub proof fn lemma_keep_existing_remove(s: Seq<NoteId>, dom: Set<NoteId>, id: NoteId)
    requires
        forall|i: int| 0 <= i < s.len() ==> dom.contains(#[trigger] s[i]),
    ensures
        keep_existing(s, dom.remove(id)) == remove_all(s, id),
    decreases s.len(),
{
    if s.len() > 0 {
        assert forall|i: int|
            0 <= i < s.drop_last().len() implies dom.contains(#[trigger] s.drop_last()[i]) by {
            assert(s[i] == s.drop_last()[i]);
        }
        lemma_keep_existing_remove(s.drop_last(), dom, id);
        assert(dom.contains(s[s.len() - 1]));
    }
}

/// Replacing the entry at `i` with one of the same key updates the graph
/// at that key.
pub proof fn lemma_entries_map_update(s: Seq<(NoteId, NoteInfo)>, i: int, e: (NoteId, NoteInfo))
    requires
        unique_keys(s),
        0 <= i < s.len(),
        e.0 == s[i].0,
    ensures
        unique_keys(s.update(i, e)),
        entries_map(s.update(i, e)) =~= entries_map(s).insert(
            e.0,
            NoteRec { text: e.1.text@, children: e.1.children@ },
        ),
    decreases s.len(),
{
    let s2 = s.update(i, e);
    assert forall|a: int, b: int|
        0 <= a < b < s2.len() implies (#[trigger] s2[a]).0 != (#[trigger] s2[b]).0 by {
        assert(s2[a].0 == s[a].0);
        assert(s2[b].0 == s[b].0);
    }
    if i == s.len() - 1 {
        assert(s2.drop_last() =~= s.drop_last());
        assert(s2.last() == e);
    } else {
        assert(s2.drop_last() =~= s.drop_last().update(i, e));
        assert(unique_keys(s.drop_last())) by {
            assert forall|a: int, b: int|
                0 <= a < b < s.drop_last().len() implies (#[trigger] s.drop_last()[a]).0
                != (#[trigger] s.drop_last()[b]).0 by {
                assert(s[a] == s.drop_last()[a]);
                assert(s[b] == s.drop_last()[b]);
            }
        }
        assert(s.drop_last()[i] == s[i]);
        lemma_entries_map_update(s.drop_last(), i, e);
        assert(s2.last() == s.last());
        assert(s.last().0 != e.0);
    }
}

/// Removing the entry at `i` removes its key from the graph.
pub proof fn lemma_entries_map_seq_remove(s: Seq<(NoteId, NoteInfo)>, i: int)
    requires
        unique_keys(s),
        0 <= i < s.len(),
    ensures
        unique_keys(s.remove(i)),
        entries_map(s.remove(i)) =~= entries_map(s).remove(s[i].0),
    decreases s.len(),
{
    let s2 = s.remove(i);
    assert forall|a: int, b: int|
        0 <= a < b < s2.len() implies (#[trigger] s2[a]).0 != (#[trigger] s2[b]).0 by {
        if b < i {
            assert(s2[a] == s[a] && s2[b] == s[b]);
        } else if a < i {
            assert(s2[a] == s[a] && s2[b] == s[b + 1]);
        } else {
            assert(s2[a] == s[a + 1] && s2[b] == s[b + 1]);
        }
    }
    lemma_entries_map_dom(s);
    lemma_entries_map_dom(s2);
    if i == s.len() - 1 {
        assert(s2 =~= s.drop_last());
        assert(!has_key(s.drop_last(), s[i].0)) by {
            assert forall|a: int|
                0 <= a < s.drop_last().len() implies (#[trigger] s.drop_last()[a]).0 != s[i].0 by {
                assert(s[a] == s.drop_last()[a]);
            }
        }
        lemma_entries_map_dom(s.drop_last());
        assert(entries_map(s.drop_last()) =~= entries_map(s).remove(s[i].0)) by {
            assert(entries_map(s) == entries_map(s.drop_last()).insert(
                s.last().0,
                NoteRec { text: s.last().1.text@, children: s.last().1.children@ },
            ));
            assert forall|k: NoteId|
                entries_map(s.drop_last()).dom().contains(k) implies entries_map(s.drop_last())[k]
                == entries_map(s).remove(s[i].0)[k] by {
                assert(has_key(s.drop_last(), k));
                assert(k != s[i].0);
            }
        }
    } else {
        assert(unique_keys(s.drop_last())) by {
            assert forall|a: int, b: int|
                0 <= a < b < s.drop_last().len() implies (#[trigger] s.drop_last()[a]).0
                != (#[trigger] s.drop_last()[b]).0 by {
                assert(s[a] == s.drop_last()[a]);
                assert(s[b] == s.drop_last()[b]);
            }
        }
        assert(s.drop_last()[i] == s[i]);
        lemma_entries_map_seq_remove(s.drop_last(), i);
        assert(s2.drop_last() =~= s.drop_last().remove(i));
        assert(s2.last() == s.last());
        assert(s.last().0 != s[i].0);
    }
}

/// Inserting a note without children into a graph without dangling
/// references and pruning is just the insertion.
pub proof fn lemma_prune_insert_empty(m: Map<NoteId, NoteRec>, id: NoteId, rec: NoteRec)
    requires
        graph_closed(m),
        rec.children.len() == 0,
    ensures
        prune_graph(m.insert(id, rec)) =~= m.insert(id, rec),
{
    let m1 = m.insert(id, rec);
    assert(graph_closed(m1)) by {
        assert forall|k: NoteId, j: int|
            m1.dom().contains(k) && 0 <= j < m1[k].children.len() implies m1.dom().contains(
            #[trigger] m1[k].children[j],
        ) by {
            if k != id {
                assert(m1[k] == m[k]);
                assert(m.dom().contains(m[k].children[j]));
            }
        }
    }
    lemma_prune_noop(m1);
}

/// Entries with the same keys and the same child lists derive the same
/// parent counts, whatever their texts.
pub proof fn lemma_same_shape_same_counts(
    s1: Seq<(NoteId, NoteInfo)>,
    s2: Seq<(NoteId, NoteInfo)>,
)
    requires
        s1.len() == s2.len(),
        forall|i: int|
            0 <= i < s1.len() ==> (#[trigger] s2[i]).0 == (#[trigger] s1[i]).0
                && s2[i].1.children@ == s1[i].1.children@,
    ensures
        forall|c: NoteId, p: NoteId|
            #[trigger] derived_count(s2, c, p) == derived_count(s1, c, p),
    decreases s1.len(),
{
    if s1.len() > 0 {
        assert forall|i: int|
            0 <= i < s1.drop_last().len() implies (#[trigger] s2.drop_last()[i]).0
            == (#[trigger] s1.drop_last()[i]).0 && s2.drop_last()[i].1.children@
            == s1.drop_last()[i].1.children@ by {
            assert(s1[i] == s1.drop_last()[i]);
            assert(s2[i] == s2.drop_last()[i]);
        }
        lemma_same_shape_same_counts(s1.drop_last(), s2.drop_last());
        assert(s2.last().0 == s1.last().0 && s2.last().1.children@ == s1.last().1.children@) by {
            assert(s1[s1.len() - 1] == s1.last());
            assert(s2[s2.len() - 1] == s2.last());
        }
        assert forall|c: NoteId, p: NoteId| #[trigger]
            derived_count(s2, c, p) == derived_count(s1, c, p) by {
            assert(derived_count(s2.drop_last(), c, p) == derived_count(s1.drop_last(), c, p));
            assert(derived_count(s2, c, p) == derived_count(s2.drop_last(), c, p) + if s2.last().0
                == p {
                occ(s2.last().1.children@, c)
            } else {
                0nat
            });
            assert(derived_count(s1, c, p) == derived_count(s1.drop_last(), c, p) + if s1.last().0
                == p {
                occ(s1.last().1.children@, c)
            } else {
                0nat
            });
        }
    }
}

/// Pruning a graph without dangling references changes nothing.
pub proof fn lemma_prune_noop(m: Map<NoteId, NoteRec>)
    requires
        graph_closed(m),
    ensures
        prune_graph(m) =~= m,
{
    assert forall|k: NoteId| m.dom().contains(k) implies prune_graph(m)[k] == m[k] by {
        assert forall|i: int|
            0 <= i < m[k].children.len() implies m.dom().contains(#[trigger] m[k].children[i]) by {}
        lemma_keep_existing_noop(m[k].children, m.dom());
    }
}

/// On a graph without dangling references, removing a note and pruning is
/// exactly [`remove_note`].
pub proof fn lemma_prune_remove(m: Map<NoteId, NoteRec>, id: NoteId)
    requires
        graph_closed(m),
    ensures
        prune_graph(m.remove(id)) =~= remove_note(m, id),
{
    assert forall|k: NoteId|
        m.dom().contains(k) && k != id implies prune_graph(m.remove(id))[k] == remove_note(
        m,
        id,
    )[k] by {
        assert forall|i: int|
            0 <= i < m[k].children.len() implies m.dom().contains(#[trigger] m[k].children[i]) by {}
        assert(m.remove(id).dom() =~= m.dom().remove(id));
        lemma_keep_existing_remove(m[k].children, m.dom(), id);
        assert(keep_existing(m[k].children, m.remove(id).dom()) == keep_existing(
            m[k].children,
            m.dom().remove(id),
        ));
    }
}

/// With unique pairs, a matching link carries the whole count of its pair.
pub proof fn lemma_table_count_single(t: Seq<ParentLink>, k: int)
    requires
        pair_unique(t),
        0 <= k < t.len(),
    ensures
        table_count(t, t[k].child, t[k].parent) == t[k].count,
    decreases t.len(),
{
    let c = t[k].child;
    let p = t[k].parent;
    if k == t.len() - 1 {
        assert forall|j: int|
            0 <= j < t.drop_last().len() implies !((#[trigger] t.drop_last()[j]).child == c
            && t.drop_last()[j].parent == p) by {
            assert(t[j] == t.drop_last()[j]);
        }
        lemma_table_count_no_link(t.drop_last(), c, p);
    } else {
        assert(pair_unique(t.drop_last())) by {
            assert forall|i: int, j: int|
                0 <= i < j < t.drop_last().len() implies !((#[trigger] t.drop_last()[i]).child
                == (#[trigger] t.drop_last()[j]).child && t.drop_last()[i].parent
                == t.drop_last()[j].parent) by {
                assert(t[i] == t.drop_last()[i]);
                assert(t[j] == t.drop_last()[j]);
            }
        }
        assert(t.drop_last()[k] == t[k]);
        lemma_table_count_single(t.drop_last(), k);
        assert(!(t.last().child == c && t.last().parent == p));
    }
}

/// Raising one link's count by one raises the table's count for exactly
/// that pair by one.
pub proof fn lemma_table_count_update_inc(t: Seq<ParentLink>, k: int, l2: ParentLink)
    requires
        0 <= k < t.len(),
        l2.child == t[k].child,
        l2.parent == t[k].parent,
        l2.count == t[k].count + 1,
    ensures
        forall|c: NoteId, p: NoteId|
            table_count(t.update(k, l2), c, p) == table_count(t, c, p) + if c == t[k].child && p
                == t[k].parent {
                1nat
            } else {
                0nat
            },
    decreases t.len(),
{
    let t2 = t.update(k, l2);
    if k == t.len() - 1 {
        assert(t2.drop_last() =~= t.drop_last());
        assert(t2.last() == l2);
        assert forall|c: NoteId, p: NoteId|
            table_count(t2, c, p) == table_count(t, c, p) + (if c == t[k].child && p
                == t[k].parent {
                1nat
            } else {
                0nat
            }) by {
            assert(table_count(t2, c, p) == table_count(t2.drop_last(), c, p) + if l2.child == c
                && l2.parent == p {
                l2.count as nat
            } else {
                0nat
            });
            assert(table_count(t, c, p) == table_count(t.drop_last(), c, p) + if t.last().child
                == c && t.last().parent == p {
                t.last().count as nat
            } else {
                0nat
            });
        }
    } else {
        assert(t2.drop_last() =~= t.drop_last().update(k, l2));
        assert(t2.last() == t.last());
        assert(t.drop_last()[k] == t[k]);
        lemma_table_count_update_inc(t.drop_last(), k, l2);
        assert forall|c: NoteId, p: NoteId|
            table_count(t2, c, p) == table_count(t, c, p) + (if c == t[k].child && p
                == t[k].parent {
                1nat
            } else {
                0nat
            }) by {
            assert(table_count(t2, c, p) == table_count(t2.drop_last(), c, p) + if t2.last().child
                == c && t2.last().parent == p {
                t2.last().count as nat
            } else {
                0nat
            });
            assert(table_count(t2.drop_last(), c, p) == table_count(t.drop_last(), c, p) + (if c
                == t[k].child && p == t[k].parent {
                1nat
            } else {
                0nat
            }));
            assert(table_count(t, c, p) == table_count(t.drop_last(), c, p) + if t.last().child
                == c && t.last().parent == p {
                t.last().count as nat
            } else {
                0nat
            });
        }
    }
}

/// Count one more occurrence of `child` under `parent`.
fn bump(table: &mut Vec<ParentLink>, child: NoteId, parent: NoteId)
    requires
        table_count(old(table)@, child, parent) < usize::MAX,
        counts_pos(old(table)@),
        pair_unique(old(table)@),
    ensures
        counts_pos(final(table)@),
        pair_unique(final(table)@),
        forall|i: int|
            0 <= i < final(table)@.len() ==> (#[trigger] final(table)@[i]).parent == parent
                || parent_listed(old(table)@, final(table)@[i].parent),
        forall|c: NoteId, p: NoteId|
            table_count(final(table)@, c, p) == table_count(old(table)@, c, p) + if c == child && p
                == parent {
                1nat
            } else {
                0nat
            },
{
    let ghost t0 = table@;
    let mut k: usize = 0;
    while k < table.len()
        invariant
            k <= table@.len(),
            table@ == t0,
            t0 == old(table)@,
            counts_pos(t0),
            pair_unique(t0),
            table_count(t0, child, parent) < usize::MAX,
            forall|j: int|
                0 <= j < k ==> !((#[trigger] table@[j]).child == child && table@[j].parent
                    == parent),
        decreases table@.len() - k,
    {
        let link = table[k];
        if link.child == child && link.parent == parent {
            proof {
                assert(table@[k as int] == link);
                lemma_table_count_single(table@, k as int);
                lemma_table_count_update_inc(
                    table@,
                    k as int,
                    ParentLink { child, parent, count: (link.count + 1) as usize },
                );
            }
            let bumped = ParentLink { child, parent, count: link.count + 1 };
            table.set(k, bumped);
            proof {
                assert forall|i: int|
                    0 <= i < table@.len() implies (#[trigger] table@[i]).parent == parent
                    || parent_listed(t0, table@[i].parent) by {
                    if i != k {
                        assert(table@[i] == t0[i]);
                        assert(t0[i].parent == table@[i].parent);
                    }
                }
                assert(pair_unique(table@)) by {
                    assert forall|i: int, j: int|
                        0 <= i < j < table@.len() implies !((#[trigger] table@[i]).child
                        == (#[trigger] table@[j]).child && table@[i].parent
                        == table@[j].parent) by {
                        assert(table@[i].child == t0[i].child && table@[i].parent == t0[i].parent);
                        assert(table@[j].child == t0[j].child && table@[j].parent == t0[j].parent);
                    }
                }
            }
            return ;
        }
        k = k + 1;
    }
    proof {
        lemma_table_count_no_link(table@, child, parent);
    }
    table.push(ParentLink { child, parent, count: 1 });
    proof {
        assert(table@.drop_last() =~= t0);
        assert forall|c: NoteId, p: NoteId|
            table_count(table@, c, p) == table_count(t0, c, p) + (if c == child && p == parent {
                1nat
            } else {
                0nat
            }) by {
            assert(table_count(table@, c, p) == table_count(table@.drop_last(), c, p) + if table@.last().child
                == c && table@.last().parent == p {
                table@.last().count as nat
            } else {
                0nat
            });
        }
        assert forall|i: int|
            0 <= i < table@.len() implies (#[trigger] table@[i]).parent == parent || parent_listed(
            t0,
            table@[i].parent,
        ) by {
            if i < table@.len() - 1 {
                assert(table@[i] == t0[i]);
                assert(t0[i].parent == table@[i].parent);
            }
        }
        assert(pair_unique(table@)) by {
            assert forall|i: int, j: int|
                0 <= i < j < table@.len() implies !((#[trigger] table@[i]).child
                == (#[trigger] table@[j]).child && table@[i].parent == table@[j].parent) by {
                if j < table@.len() - 1 {
                    assert(t0[i] == table@[i]);
                    assert(t0[j] == table@[j]);
                } else {
                    assert(t0[i] == table@[i]);
                }
            }
        }
    }
}

/// The note graph store.
///
/// The store owns the notes, a derived parent index rebuilt after every
/// structural mutation, and two revision counters: the current revision and
/// the revision last acknowledged through [`Store::update`].
pub struct Store {
    last_rev: u64,
    curr_rev: u64,
    notes: Vec<(NoteId, NoteInfo)>,
    parents: Vec<ParentLink>,
}

impl View for Store {
    type V = Map<NoteId, NoteRec>;

    closed spec fn view(&self) -> Map<NoteId, NoteRec> {
        entries_map(self.notes@)
    }
}

impl Store {
    /// The current revision.
    pub closed spec fn revision(&self) -> u64 {
        self.curr_rev
    }

    /// The revision last acknowledged by the observer.
    pub closed spec fn acked_revision(&self) -> u64 {
        self.last_rev
    }

    /// The derived occurrence count: how many times `parent` lists `child`.
    pub closed spec fn parent_count(&self, child: NoteId, parent: NoteId) -> nat {
        table_count(self.parents@, child, parent)
    }

    /// The store's invariant: ids are unique, the acknowledged revision
    /// never runs ahead, the parent index matches the notes, and no child
    /// reference dangles.
    pub closed spec fn wf(&self) -> bool {
        &&& unique_keys(self.notes@)
        &&& self.last_rev <= self.curr_rev
        &&& table_wf(self.parents@, self.notes@)
        &&& forall|c: NoteId, p: NoteId|
            #[trigger] table_count(self.parents@, c, p) == derived_count(self.notes@, c, p)
        &&& forall|i: int, j: int|
            0 <= i < self.notes@.len() && 0 <= j < self.notes@[i].1.children@.len() ==> has_key(
                self.notes@,
                #[trigger] self.notes@[i].1.children@[j],
            )
    }

    /// An empty store at revision zero.
    pub fn new() -> (r: Store)
        ensures
            r.wf(),
            r@ == Map::<NoteId, NoteRec>::empty(),
            r.revision() == 0,
            r.acked_revision() == 0,
    {
        let r = Store { last_rev: 0, curr_rev: 0, notes: Vec::new(), parents: Vec::new() };
        proof {
            assert forall|c: NoteId, p: NoteId| #[trigger]
                table_count(r.parents@, c, p) == derived_count(r.notes@, c, p) by {
                assert(table_count(r.parents@, c, p) == 0);
                assert(derived_count(r.notes@, c, p) == 0);
            }
        }
        r
    }

    /// The current revision as a number.
    pub fn revision_number(&self) -> (r: u64)
        ensures
            r == self.revision(),
    {
        self.curr_rev
    }

    /// The latest revision, if it differs from the last acknowledged one.
    pub fn needs_update(&self) -> (r: Option<u64>)
        ensures
            r == if self.acked_revision() != self.revision() {
                Some(self.revision())
            } else {
                None::<u64>
            },
    {
        if self.last_rev != self.curr_rev {
            Some(self.curr_rev)
        } else {
            None
        }
    }

    /// Acknowledge the current revision.
    pub fn update(&mut self)
        requires
            old(self).wf(),
        ensures
            final(self).wf(),
            final(self)@ == old(self)@,
            final(self).revision() == old(self).revision(),
            final(self).acked_revision() == final(self).revision(),
    {
        self.last_rev = self.curr_rev;
    }

    /// The consistency pass: prune every child list to the notes that
    /// exist, rebuild the derived parent index from scratch, and bump the
    /// revision counter.
    fn make_consistent_and_tick(&mut self)
        requires
            unique_keys(old(self).notes@),
            old(self).last_rev <= old(self).curr_rev,
            old(self).curr_rev < u64::MAX,
        ensures
            final(self).wf(),
            final(self)@ == prune_graph(entries_map(old(self).notes@)),
            final(self).revision() == old(self).curr_rev + 1,
            final(self).acked_revision() == old(self).last_rev,
    {
        let ghost orig = self.notes@;
        let ghost m = entries_map(orig);
        proof {
            lemma_entries_map_dom(orig);
        }

        let keys = collect_keys(&self.notes);
        proof {
            assert forall|c: NoteId| keys@.contains(c) <==> m.dom().contains(c) by {
                if keys@.contains(c) {
                    let i = choose|i: int| 0 <= i < keys@.len() && keys@[i] == c;
                    assert(orig[i].0 == c);
                    assert(has_key(orig, c));
                }
                if m.dom().contains(c) {
                    assert(has_key(orig, c));
                    let i = choose|i: int| 0 <= i < orig.len() && (#[trigger] orig[i]).0 == c;
                    assert(keys@[i] == c);
                    assert(keys@.contains(c));
                }
            }
        }

        // Remove child references to notes that do not exist.
        let mut new_notes: Vec<(NoteId, NoteInfo)> = Vec::new();
        let mut i: usize = 0;
        while i < self.notes.len()
            invariant
                self.notes@ == orig,
                m == entries_map(orig),
                unique_keys(orig),
                keys@.len() == orig.len(),
                forall|a: int| 0 <= a < orig.len() ==> keys@[a] == (#[trigger] orig[a]).0,
                forall|c: NoteId| keys@.contains(c) <==> m.dom().contains(c),
                i <= orig.len(),
                new_notes@.len() == i,
                forall|a: int| 0 <= a < i ==> (#[trigger] new_notes@[a]).0 == orig[a].0,
                forall|a: int|
                    0 <= a < i ==> (#[trigger] new_notes@[a]).1.text@ == orig[a].1.text@,
                forall|a: int|
                    0 <= a < i ==> (#[trigger] new_notes@[a]).1.children@ == keep_existing(
                        orig[a].1.children@,
                        m.dom(),
                    ),
            decreases orig.len() - i,
        {
            let entry = &self.notes[i];
            let id = entry.0;
            let text = entry.1.text.clone();
            let mut pruned: Vec<NoteId> = Vec::new();
            let mut j: usize = 0;
            while j < entry.1.children.len()
                invariant
                    forall|c: NoteId| keys@.contains(c) <==> m.dom().contains(c),
                    j <= entry.1.children@.len(),
                    pruned@ == keep_existing(entry.1.children@.take(j as int), m.dom()),
                decreases entry.1.children@.len() - j,
            {
                let c = entry.1.children[j];
                let ghost before = pruned@;
                if contains_id(&keys, c) {
                    pruned.push(c);
                }
                proof {
                    let cs = entry.1.children@;
                    assert(cs.take(j + 1).drop_last() =~= cs.take(j as int));
                    assert(cs.take(j + 1).last() == cs[j as int]);
                    assert(pruned@ == keep_existing(cs.take(j + 1), m.dom()));
                }
                j = j + 1;
            }
            proof {
                assert(entry.1.children@.take(entry.1.children@.len() as int) =~= entry
                    .1
                    .children@);
            }
            new_notes.push((id, NoteInfo { text, children: pruned }));
            i = i + 1;
        }

        self.notes = new_notes;

        proof {
            assert(unique_keys(self.notes@)) by {
                assert forall|a: int, b: int|
                    0 <= a < b < self.notes@.len() implies (#[trigger] self.notes@[a]).0
                    != (#[trigger] self.notes@[b]).0 by {
                    assert(self.notes@[a].0 == orig[a].0);
                    assert(self.notes@[b].0 == orig[b].0);
                }
            }
            lemma_entries_map_dom(self.notes@);
            assert forall|c: NoteId| has_key(self.notes@, c) <==> m.dom().contains(c) by {
                if has_key(self.notes@, c) {
                    let a = choose|a: int|
                        0 <= a < self.notes@.len() && (#[trigger] self.notes@[a]).0 == c;
                    assert(orig[a].0 == c);
                    assert(has_key(orig, c));
                }
                if m.dom().contains(c) {
                    assert(has_key(orig, c));
                    let a = choose|a: int| 0 <= a < orig.len() && (#[trigger] orig[a]).0 == c;
                    assert(self.notes@[a].0 == c);
                }
            }
            // every kept child reference names an existing note
            assert forall|a: int, b: int|
                0 <= a < self.notes@.len() && 0 <= b < self.notes@[a].1.children@.len() implies has_key(
                self.notes@,
                #[trigger] self.notes@[a].1.children@[b],
            ) by {
                lemma_keep_existing_subset(orig[a].1.children@, m.dom());
                let c = self.notes@[a].1.children@[b];
                assert(self.notes@[a].1.children@.contains(c));
                assert(m.dom().contains(c));
            }
            // the new graph is exactly the pruned old graph
            assert(entries_map(self.notes@) =~= prune_graph(m)) by {
                assert forall|k: NoteId|
                    entries_map(self.notes@).dom().contains(k) <==> prune_graph(
                        m,
                    ).dom().contains(k) by {
                    assert(has_key(self.notes@, k) <==> m.dom().contains(k));
                }
                assert forall|k: NoteId|
                    prune_graph(m).dom().contains(k) implies entries_map(self.notes@)[k]
                    == prune_graph(m)[k] by {
                    assert(has_key(orig, k));
                    let a = choose|a: int| 0 <= a < orig.len() && (#[trigger] orig[a]).0 == k;
                    lemma_entries_map_index(orig, a);
                    assert(self.notes@[a].0 == k);
                    lemma_entries_map_index(self.notes@, a);
                }
            }
        }

        // Rebuild the derived parent index from the pruned notes.
        let ghost s = self.notes@;
        let mut table: Vec<ParentLink> = Vec::new();
        let mut i2: usize = 0;
        while i2 < self.notes.len()
            invariant
                self.notes@ == s,
                unique_keys(s),
                i2 <= s.len(),
                counts_pos(table@),
                pair_unique(table@),
                parents_exist(table@, s),
                forall|c: NoteId, p: NoteId|
                    #[trigger] table_count(table@, c, p) == derived_count(
                        s.take(i2 as int),
                        c,
                        p,
                    ),
            decreases s.len() - i2,
        {
            let entry = &self.notes[i2];
            let parent = entry.0;
            let mut j: usize = 0;
            while j < entry.1.children.len()
                invariant
                    self.notes@ == s,
                    unique_keys(s),
                    i2 < s.len(),
                    entry.0 == s[i2 as int].0,
                    entry.1.children@ == s[i2 as int].1.children@,
                    parent == entry.0,
                    j <= entry.1.children@.len(),
                    counts_pos(table@),
                    pair_unique(table@),
                    parents_exist(table@, s),
                    forall|c: NoteId, p: NoteId|
                        #[trigger] table_count(table@, c, p) == derived_count(
                            s.take(i2 as int),
                            c,
                            p,
                        ) + (if s[i2 as int].0 == p {
                            occ(entry.1.children@.take(j as int), c)
                        } else {
                            0nat
                        }),
                decreases entry.1.children@.len() - j,
            {
                let child = entry.1.children[j];
                proof {
                    assert forall|a: int|
                        0 <= a < s.take(i2 as int).len() implies (#[trigger] s.take(
                        i2 as int,
                    )[a]).0 != parent by {
                        assert(s.take(i2 as int)[a] == s[a]);
                    }
                    assert(!has_key(s.take(i2 as int), parent));
                    lemma_derived_count_absent(s.take(i2 as int), child, parent);
                    lemma_occ_le_len(entry.1.children@.take(j as int), child);
                }
                let ghost t_before = table@;
                bump(&mut table, child, parent);
                proof {
                    assert(parents_exist(table@, s)) by {
                        assert forall|ti: int|
                            0 <= ti < table@.len() implies has_key(
                            s,
                            (#[trigger] table@[ti]).parent,
                        ) by {
                            if table@[ti].parent == parent {
                                assert(s[i2 as int].0 == parent);
                                assert(has_key(s, parent));
                            } else {
                                assert(parent_listed(t_before, table@[ti].parent));
                                let tj = choose|tj: int|
                                    0 <= tj < t_before.len() && (#[trigger] t_before[tj]).parent
                                        == table@[ti].parent;
                                assert(has_key(s, t_before[tj].parent));
                            }
                        }
                    }
                    let cs = entry.1.children@;
                    assert(cs.take(j + 1).drop_last() =~= cs.take(j as int));
                    assert(cs.take(j + 1).last() == cs[j as int]);
                    assert forall|c: NoteId, p: NoteId| #[trigger]
                        table_count(table@, c, p) == derived_count(s.take(i2 as int), c, p) + (
                        if s[i2 as int].0 == p {
                            occ(cs.take(j + 1), c)
                        } else {
                            0nat
                        }) by {
                        assert(occ(cs.take(j + 1), c) == occ(cs.take(j as int), c) + (if cs[j as int]
                            == c {
                            1nat
                        } else {
                            0nat
                        }));
                        assert(table_count(table@, c, p) == table_count(t_before, c, p) + (if c
                            == child && p == parent {
                            1nat
                        } else {
                            0nat
                        }));
                    }
                }
                j = j + 1;
            }
            proof {
                assert(entry.1.children@.take(entry.1.children@.len() as int) =~= entry
                    .1
                    .children@);
                assert(s.take(i2 + 1).drop_last() =~= s.take(i2 as int));
                assert(s.take(i2 + 1).last() == s[i2 as int]);
                assert forall|c: NoteId, p: NoteId| #[trigger]
                    table_count(table@, c, p) == derived_count(s.take(i2 + 1), c, p) by {
                    assert(derived_count(s.take(i2 + 1), c, p) == derived_count(
                        s.take(i2 as int),
                        c,
                        p,
                    ) + (if s[i2 as int].0 == p {
                        occ(s[i2 as int].1.children@, c)
                    } else {
                        0nat
                    }));
                }
            }
            i2 = i2 + 1;
        }
        proof {
            assert(s.take(s.len() as int) =~= s);
        }
        self.parents = table;
        self.curr_rev = self.curr_rev + 1;
    }

    /// The store's graph never holds a dangling child reference.
    pub proof fn lemma_graph_closed(&self)
        requires
            self.wf(),
        ensures
            graph_closed(self@),
    {
        lemma_entries_map_dom(self.notes@);
        assert forall|k: NoteId, j: int|
            self@.dom().contains(k) && 0 <= j < self@[k].children.len() implies self@.dom().contains(
            #[trigger] self@[k].children[j],
        ) by {
            assert(has_key(self.notes@, k));
            let i = choose|i: int| 0 <= i < self.notes@.len() && (#[trigger] self.notes@[i]).0 == k;
            lemma_entries_map_index(self.notes@, i);
            assert(self@[k].children[j] == self.notes@[i].1.children@[j]);
            assert(has_key(self.notes@, self.notes@[i].1.children@[j]));
        }
    }

    /// Allocate a fresh note with the given text and no children, run the
    /// consistency pass and bump the revision. `None` only when no
    /// identifier could be drawn from the clock.
    pub fn create(&mut self, text: String) -> (r: Option<NoteId>)
        requires
            old(self).wf(),
            old(self).revision() < u64::MAX,
        ensures
            final(self).wf(),
            match r {
                Some(id) => {
                    &&& final(self)@ == old(self)@.insert(
                        id,
                        (NoteRec { text: text@, children: Seq::empty() }),
                    )
                    &&& final(self).revision() == old(self).revision() + 1
                    &&& final(self).acked_revision() == old(self).acked_revision()
                },
                None => {
                    &&& final(self)@ == old(self)@
                    &&& final(self).revision() == old(self).revision()
                    &&& final(self).acked_revision() == old(self).acked_revision()
                },
            },
    {
        let id = match crate::ids::NoteId::new() {
            Some(id) => id,
            None => {
                return None;
            },
        };
        let ghost orig = self.notes@;
        let ghost m = entries_map(orig);
        let ghost rec = NoteRec { text: text@, children: Seq::<NoteId>::empty() };
        proof {
            self.lemma_graph_closed();
        }
        let info = NoteInfo { text, children: Vec::new() };
        match position_of(&self.notes, id) {
            Some(i) => {
                self.notes.remove(i);
                self.notes.insert(i, (id, info));
                proof {
                    assert(self.notes@ =~= orig.update(i as int, self.notes@[i as int]));
                    lemma_entries_map_update(orig, i as int, self.notes@[i as int]);
                    assert(entries_map(self.notes@) =~= m.insert(id, rec));
                }
            },
            None => {
                self.notes.push((id, info));
                proof {
                    assert(self.notes@.drop_last() =~= orig);
                    assert(unique_keys(self.notes@)) by {
                        assert forall|a: int, b: int|
                            0 <= a < b < self.notes@.len() implies (#[trigger] self.notes@[a]).0
                            != (#[trigger] self.notes@[b]).0 by {
                            if b < self.notes@.len() - 1 {
                                assert(orig[a] == self.notes@[a]);
                                assert(orig[b] == self.notes@[b]);
                            } else {
                                assert(orig[a] == self.notes@[a]);
                                if self.notes@[a].0 == id {
                                    assert(orig[a].0 == id);
                                    assert(has_key(orig, id));
                                }
                            }
                        }
                    }
                    assert(entries_map(self.notes@) =~= m.insert(id, rec));
                }
            },
        }
        self.make_consistent_and_tick();
        proof {
            lemma_prune_insert_empty(m, id, rec);
        }
        Some(id)
    }

    /// Remove a note. Dangling references to it are pruned by the
    /// consistency pass; `None` when the note does not exist.
    pub fn delete(&mut self, id: NoteId) -> (r: Option<NoteInfo>)
        requires
            old(self).wf(),
            old(self).revision() < u64::MAX,
        ensures
            final(self).wf(),
            match r {
                Some(info) => {
                    &&& old(self)@.dom().contains(id)
                    &&& info.text@ == old(self)@[id].text
                    &&& info.children@ == old(self)@[id].children
                    &&& final(self)@ == remove_note(old(self)@, id)
                    &&& final(self).revision() == old(self).revision() + 1
                    &&& final(self).acked_revision() == old(self).acked_revision()
                },
                None => {
                    &&& !old(self)@.dom().contains(id)
                    &&& final(self)@ == old(self)@
                    &&& final(self).revision() == old(self).revision()
                    &&& final(self).acked_revision() == old(self).acked_revision()
                },
            },
    {
        let ghost orig = self.notes@;
        let ghost m = entries_map(orig);
        proof {
            lemma_entries_map_dom(orig);
            self.lemma_graph_closed();
        }
        let i = match position_of(&self.notes, id) {
            Some(i) => i,
            None => {
                return None;
            },
        };
        proof {
            lemma_entries_map_index(orig, i as int);
            lemma_entries_map_seq_remove(orig, i as int);
        }
        let entry = self.notes.remove(i);
        self.make_consistent_and_tick();
        proof {
            lemma_prune_remove(m, id);
        }
        Some(entry.1)
    }

    /// Remove all notes and bump the revision.
    pub fn clear(&mut self)
        requires
            old(self).wf(),
            old(self).revision() < u64::MAX,
        ensures
            final(self).wf(),
            final(self)@ == Map::<NoteId, NoteRec>::empty(),
            final(self).revision() == old(self).revision() + 1,
            final(self).acked_revision() == old(self).acked_revision(),
    {
        self.notes.clear();
        self.parents.clear();
        self.curr_rev = self.curr_rev + 1;
        proof {
            assert forall|c: NoteId, p: NoteId| #[trigger]
                table_count(self.parents@, c, p) == derived_count(self.notes@, c, p) by {
                assert(table_count(self.parents@, c, p) == 0);
                assert(derived_count(self.notes@, c, p) == 0);
            }
        }
    }

    /// Replace a note's text. A no-op without a revision bump when the new
    /// text equals the current one; `None` then, and when the note does
    /// not exist.
    pub fn set_text(&mut self, id: NoteId, text: String) -> (r: Option<()>)
        requires
            old(self).wf(),
            old(self).revision() < u64::MAX,
        ensures
            final(self).wf(),
            match r {
                Some(_) => {
                    &&& old(self)@.dom().contains(id)
                    &&& old(self)@[id].text != text@
                    &&& final(self)@ == old(self)@.insert(
                        id,
                        (NoteRec { text: text@, children: old(self)@[id].children }),
                    )
                    &&& final(self).revision() == old(self).revision() + 1
                    &&& final(self).acked_revision() == old(self).acked_revision()
                },
                None => {
                    &&& (!old(self)@.dom().contains(id) || old(self)@[id].text == text@)
                    &&& final(self)@ == old(self)@
                    &&& final(self).revision() == old(self).revision()
                    &&& final(self).acked_revision() == old(self).acked_revision()
                },
            },
    {
        let ghost orig = self.notes@;
        let ghost m = entries_map(orig);
        proof {
            lemma_entries_map_dom(orig);
        }
        let i = match position_of(&self.notes, id) {
            Some(i) => i,
            None => {
                return None;
            },
        };
        proof {
            lemma_entries_map_index(orig, i as int);
        }
        if self.notes[i].1.text == text {
            return None;
        }
        let entry = self.notes.remove(i);
        let info = NoteInfo { text, children: entry.1.children };
        self.notes.insert(i, (entry.0, info));
        self.curr_rev = self.curr_rev + 1;
        proof {
            assert(self.notes@ =~= orig.update(i as int, self.notes@[i as int]));
            lemma_entries_map_update(orig, i as int, self.notes@[i as int]);
            lemma_same_shape_same_counts(orig, self.notes@);
            assert forall|c: NoteId, p: NoteId| #[trigger]
                table_count(self.parents@, c, p) == derived_count(self.notes@, c, p) by {
                assert(table_count(self.parents@, c, p) == derived_count(orig, c, p));
                assert(derived_count(self.notes@, c, p) == derived_count(orig, c, p));
            }
            assert(parents_exist(self.parents@, self.notes@)) by {
                assert forall|ti: int|
                    0 <= ti < self.parents@.len() implies has_key(
                    self.notes@,
                    (#[trigger] self.parents@[ti]).parent,
                ) by {
                    assert(has_key(orig, self.parents@[ti].parent));
                    let w = choose|w: int|
                        0 <= w < orig.len() && (#[trigger] orig[w]).0 == self.parents@[ti].parent;
                    assert(self.notes@[w].0 == orig[w].0);
                }
            }
            assert forall|a: int, b: int|
                0 <= a < self.notes@.len() && 0 <= b < self.notes@[a].1.children@.len()
                    implies has_key(self.notes@, #[trigger] self.notes@[a].1.children@[b]) by {
                assert(self.notes@[a].1.children@ == orig[a].1.children@);
                assert(has_key(orig, orig[a].1.children@[b]));
                let w = choose|w: int|
                    0 <= w < orig.len() && (#[trigger] orig[w]).0 == orig[a].1.children@[b];
                assert(self.notes@[w].0 == orig[w].0);
            }
        }
        Some(())
    }

    /// Replace a note's full child list. A no-op without a revision bump
    /// when the new list equals the current one; `None` then, and when the
    /// note does not exist. References to notes that do not exist are
    /// pruned by the consistency pass.
    pub fn set_children(&mut self, id: NoteId, children: Vec<NoteId>) -> (r: Option<()>)
        requires
            old(self).wf(),
            old(self).revision() < u64::MAX,
        ensures
            final(self).wf(),
            match r {
                Some(_) => {
                    &&& old(self)@.dom().contains(id)
                    &&& old(self)@[id].children != children@
                    &&& final(self)@ == prune_graph(
                        old(self)@.insert(
                            id,
                            (NoteRec { text: old(self)@[id].text, children: children@ }),
                        ),
                    )
                    &&& final(self).revision() == old(self).revision() + 1
                    &&& final(self).acked_revision() == old(self).acked_revision()
                },
                None => {
                    &&& (!old(self)@.dom().contains(id) || old(self)@[id].children == children@)
                    &&& final(self)@ == old(self)@
                    &&& final(self).revision() == old(self).revision()
                    &&& final(self).acked_revision() == old(self).acked_revision()
                },
            },
    {
        let ghost orig = self.notes@;
        let ghost m = entries_map(orig);
        proof {
            lemma_entries_map_dom(orig);
        }
        let i = match position_of(&self.notes, id) {
            Some(i) => i,
            None => {
                return None;
            },
        };
        proof {
            lemma_entries_map_index(orig, i as int);
        }
        if ids_equal(&self.notes[i].1.children, &children) {
            return None;
        }
        let entry = self.notes.remove(i);
        let info = NoteInfo { text: entry.1.text, children };
        self.notes.insert(i, (entry.0, info));
        proof {
            assert(self.notes@ =~= orig.update(i as int, self.notes@[i as int]));
            lemma_entries_map_update(orig, i as int, self.notes@[i as int]);
        }
        self.make_consistent_and_tick();
        Some(())
    }

    /// Insert `child_id` into `id`'s children at the index the signed
    /// position resolves to. Always mutates and bumps the revision when the
    /// note exists, even if the child does not (the pass then prunes it).
    pub fn add_child_at_position(&mut self, id: NoteId, child_id: NoteId, child_position: isize) -> (r:
        Option<()>)
        requires
            old(self).wf(),
            old(self).revision() < u64::MAX,
        ensures
            final(self).wf(),
            match r {
                Some(_) => {
                    &&& old(self)@.dom().contains(id)
                    &&& final(self)@ == prune_graph(
                        old(self)@.insert(
                            id,
                            (NoteRec {
                                text: old(self)@[id].text,
                                children: old(self)@[id].children.insert(
                                    resolve_position_spec(
                                        old(self)@[id].children.len(),
                                        child_position as int,
                                    ) as int,
                                    child_id,
                                ),
                            }),
                        ),
                    )
                    &&& final(self).revision() == old(self).revision() + 1
                    &&& final(self).acked_revision() == old(self).acked_revision()
                },
                None => {
                    &&& !old(self)@.dom().contains(id)
                    &&& final(self)@ == old(self)@
                    &&& final(self).revision() == old(self).revision()
                    &&& final(self).acked_revision() == old(self).acked_revision()
                },
            },
    {
        let ghost orig = self.notes@;
        let ghost m = entries_map(orig);
        proof {
            lemma_entries_map_dom(orig);
        }
        let i = match position_of(&self.notes, id) {
            Some(i) => i,
            None => {
                return None;
            },
        };
        proof {
            lemma_entries_map_index(orig, i as int);
        }
        let index = resolve_child_position(&self.notes[i].1.children, child_position);
        let entry = self.notes.remove(i);
        let mut info = entry.1;
        info.children.insert(index, child_id);
        self.notes.insert(i, (entry.0, info));
        proof {
            assert(self.notes@ =~= orig.update(i as int, self.notes@[i as int]));
            lemma_entries_map_update(orig, i as int, self.notes@[i as int]);
        }
        self.make_consistent_and_tick();
        Some(())
    }

    /// Remove the `child_iteration`-th occurrence of `child_id` from `id`'s
    /// children. `None` when the note does not exist or has no such
    /// occurrence.
    pub fn remove_child_by_id(&mut self, id: NoteId, child_id: NoteId, child_iteration: usize) -> (r:
        Option<()>)
        requires
            old(self).wf(),
            old(self).revision() < u64::MAX,
        ensures
            final(self).wf(),
            match r {
                Some(_) => {
                    &&& old(self)@.dom().contains(id)
                    &&& (resolve_iteration_spec(
                        old(self)@[id].children,
                        child_id,
                        child_iteration as nat,
                    ) matches Some(idx) && final(self)@ == prune_graph(
                        old(self)@.insert(
                            id,
                            (NoteRec {
                                text: old(self)@[id].text,
                                children: old(self)@[id].children.remove(idx),
                            }),
                        ),
                    ))
                    &&& final(self).revision() == old(self).revision() + 1
                    &&& final(self).acked_revision() == old(self).acked_revision()
                },
                None => {
                    &&& (!old(self)@.dom().contains(id) || resolve_iteration_spec(
                        old(self)@[id].children,
                        child_id,
                        child_iteration as nat,
                    ) is None)
                    &&& final(self)@ == old(self)@
                    &&& final(self).revision() == old(self).revision()
                    &&& final(self).acked_revision() == old(self).acked_revision()
                },
            },
    {
        let ghost orig = self.notes@;
        let ghost m = entries_map(orig);
        proof {
            lemma_entries_map_dom(orig);
        }
        let i = match position_of(&self.notes, id) {
            Some(i) => i,
            None => {
                return None;
            },
        };
        proof {
            lemma_entries_map_index(orig, i as int);
        }
        let index = match resolve_child_iteration(&self.notes[i].1.children, child_id, child_iteration) {
            Some(index) => index,
            None => {
                return None;
            },
        };
        let entry = self.notes.remove(i);
        let mut info = entry.1;
        info.children.remove(index);
        self.notes.insert(i, (entry.0, info));
        proof {
            assert(self.notes@ =~= orig.update(i as int, self.notes@[i as int]));
            lemma_entries_map_update(orig, i as int, self.notes@[i as int]);
        }
        self.make_consistent_and_tick();
        Some(())
    }

    /// Remove occurrence `from_iteration` of `child_id` from `from_id`'s
    /// children and insert the child into `to_id`'s children at the
    /// resolved position, as one atomic step with a single revision bump.
    /// `None` when either note or the occurrence does not exist.
    pub fn move_child_by_id_to_position(
        &mut self,
        child_id: NoteId,
        from_id: NoteId,
        from_iteration: usize,
        to_id: NoteId,
        to_position: isize,
    ) -> (r: Option<()>)
        requires
            old(self).wf(),
            old(self).revision() < u64::MAX,
        ensures
            final(self).wf(),
            match r {
                Some(_) => {
                    &&& old(self)@.dom().contains(from_id)
                    &&& old(self)@.dom().contains(to_id)
                    &&& (resolve_iteration_spec(
                        old(self)@[from_id].children,
                        child_id,
                        from_iteration as nat,
                    ) matches Some(fidx) && final(self)@ == prune_graph(
                        moved_graph(
                            old(self)@,
                            child_id,
                            from_id,
                            fidx,
                            to_id,
                            to_position as int,
                        ),
                    ))
                    &&& final(self).revision() == old(self).revision() + 1
                    &&& final(self).acked_revision() == old(self).acked_revision()
                },
                None => {
                    &&& (!old(self)@.dom().contains(from_id) || !old(self)@.dom().contains(to_id)
                        || resolve_iteration_spec(
                        old(self)@[from_id].children,
                        child_id,
                        from_iteration as nat,
                    ) is None)
                    &&& final(self)@ == old(self)@
                    &&& final(self).revision() == old(self).revision()
                    &&& final(self).acked_revision() == old(self).acked_revision()
                },
            },
    {
        let ghost orig = self.notes@;
        let ghost m = entries_map(orig);
        proof {
            lemma_entries_map_dom(orig);
        }
        let fi = match position_of(&self.notes, from_id) {
            Some(fi) => fi,
            None => {
                return None;
            },
        };
        let ti = match position_of(&self.notes, to_id) {
            Some(ti) => ti,
            None => {
                return None;
            },
        };
        proof {
            lemma_entries_map_index(orig, fi as int);
            lemma_entries_map_index(orig, ti as int);
        }
        let fidx = match resolve_child_iteration(
            &self.notes[fi].1.children,
            child_id,
            from_iteration,
        ) {
            Some(fidx) => fidx,
            None => {
                return None;
            },
        };
        proof {
            if from_id == to_id {
                assert(fi == ti) by {
                    if fi != ti {
                        assert(orig[fi as int].0 != orig[ti as int].0);
                    }
                }
            } else {
                assert(fi != ti) by {
                    if fi == ti {
                        assert(orig[fi as int].0 == orig[ti as int].0);
                    }
                }
            }
        }

        // take the occurrence out of the source list
        let fentry = self.notes.remove(fi);
        let mut finfo = fentry.1;
        finfo.children.remove(fidx);
        self.notes.insert(fi, (fentry.0, finfo));
        let ghost mid = self.notes@;
        let ghost removed = entries_map(mid);
        proof {
            assert(mid =~= orig.update(fi as int, mid[fi as int]));
            lemma_entries_map_update(orig, fi as int, mid[fi as int]);
            lemma_entries_map_index(mid, ti as int);
        }

        // place the child at the given position of the remaining sequence
        let tpos = resolve_child_position(&self.notes[ti].1.children, to_position);
        let tentry = self.notes.remove(ti);
        let mut tinfo = tentry.1;
        tinfo.children.insert(tpos, child_id);
        self.notes.insert(ti, (tentry.0, tinfo));
        proof {
            assert(self.notes@ =~= mid.update(ti as int, self.notes@[ti as int]));
            lemma_entries_map_update(mid, ti as int, self.notes@[ti as int]);
            assert(entries_map(self.notes@) =~= moved_graph(
                m,
                child_id,
                from_id,
                fidx as int,
                to_id,
                to_position as int,
            ));
        }
        self.make_consistent_and_tick();
        Some(())
    }

    /// Links in the parent table stand exactly for the parents of a note.
    proof fn lemma_table_links_are_parents(&self, id: NoteId)
        requires
            self.wf(),
        ensures
            forall|p: NoteId|
                table_has(self.parents@, id, p) <==> parents_of(self@, id).contains(p),
    {
        lemma_entries_map_dom(self.notes@);
        assert forall|p: NoteId|
            table_has(self.parents@, id, p) <==> parents_of(self@, id).contains(p) by {
            if table_has(self.parents@, id, p) {
                lemma_table_count_link_pos(self.parents@, id, p);
                assert(derived_count(self.notes@, id, p) > 0);
                lemma_derived_count_pos_has_key(self.notes@, id, p);
                assert(has_key(self.notes@, p));
                let i = choose|i: int|
                    0 <= i < self.notes@.len() && (#[trigger] self.notes@[i]).0 == p;
                lemma_derived_count_key(self.notes@, i, id);
                lemma_entries_map_index(self.notes@, i);
            }
            if parents_of(self@, id).contains(p) {
                assert(self@.dom().contains(p));
                assert(has_key(self.notes@, p));
                let i = choose|i: int|
                    0 <= i < self.notes@.len() && (#[trigger] self.notes@[i]).0 == p;
                lemma_derived_count_key(self.notes@, i, id);
                lemma_entries_map_index(self.notes@, i);
                assert(derived_count(self.notes@, id, p) > 0);
                if !table_has(self.parents@, id, p) {
                    lemma_table_count_no_link(self.parents@, id, p);
                }
            }
        }
    }

    /// Look a note up and hand out its data together with the set of its
    /// parents.
    pub fn get(&self, id: NoteId) -> (r: Option<RichNote>)
        requires
            self.wf(),
        ensures
            match r {
                Some(note) => {
                    &&& self@.dom().contains(id)
                    &&& note.id == id
                    &&& note.text@ == self@[id].text
                    &&& note.children@ == self@[id].children
                    &&& note.parents@.no_duplicates()
                    &&& forall|p: NoteId|
                        #[trigger] note.parents@.contains(p) <==> parents_of(
                            self@,
                            id,
                        ).contains(p)
                },
                None => !self@.dom().contains(id),
            },
    {
        proof {
            lemma_entries_map_dom(self.notes@);
        }
        let i = match position_of(&self.notes, id) {
            Some(i) => i,
            None => {
                return None;
            },
        };
        proof {
            lemma_entries_map_index(self.notes@, i as int);
        }
        let text = self.notes[i].1.text.clone();
        let children = clone_ids(&self.notes[i].1.children);

        let mut parents: Vec<NoteId> = Vec::new();
        let mut k: usize = 0;
        while k < self.parents.len()
            invariant
                self.wf(),
                k <= self.parents@.len(),
                parents@.no_duplicates(),
                forall|p: NoteId|
                    #[trigger] parents@.contains(p) <==> table_has_upto(
                        self.parents@,
                        id,
                        p,
                        k as int,
                    ),
            decreases self.parents@.len() - k,
        {
            let ghost prev = parents@;
            let link = self.parents[k];
            if link.child == id {
                proof {
                    assert(self.parents@[k as int] == link);
                    if prev.contains(link.parent) {
                        let j = choose|j: int|
                            0 <= j < k && (#[trigger] self.parents@[j]).child == id
                                && self.parents@[j].parent == link.parent;
                        assert(false);
                    }
                }
                parents.push(link.parent);
                proof {
                    assert(parents@ == prev.push(link.parent));
                    assert(parents@.no_duplicates()) by {
                        assert forall|a: int, b: int|
                            0 <= a < b < parents@.len() implies parents@[a] != parents@[b] by {
                            if b < parents@.len() - 1 {
                                assert(prev[a] != prev[b]);
                            } else {
                                assert(prev[a] == parents@[a]);
                                assert(prev.contains(prev[a]));
                            }
                        }
                    }
                    assert forall|p: NoteId|
                        #[trigger] parents@.contains(p) <==> table_has_upto(
                            self.parents@,
                            id,
                            p,
                            k + 1,
                        ) by {
                        if parents@.contains(p) {
                            let j = choose|j: int| 0 <= j < parents@.len() && parents@[j] == p;
                            if j < parents@.len() - 1 {
                                assert(prev[j] == p);
                                assert(prev.contains(p));
                                assert(table_has_upto(self.parents@, id, p, k as int));
                                let jj = choose|jj: int|
                                    0 <= jj < k && (#[trigger] self.parents@[jj]).child == id
                                        && self.parents@[jj].parent == p;
                                assert(table_has_upto(self.parents@, id, p, k + 1));
                            } else {
                                assert(p == link.parent);
                                assert((#[trigger] self.parents@[k as int]).child == id
                                    && self.parents@[k as int].parent == p);
                            }
                        }
                        if table_has_upto(self.parents@, id, p, k + 1) {
                            let j = choose|j: int|
                                0 <= j < k + 1 && (#[trigger] self.parents@[j]).child == id
                                    && self.parents@[j].parent == p;
                            if j < k {
                                assert(table_has_upto(self.parents@, id, p, k as int));
                                assert(prev.contains(p));
                                let jj = choose|jj: int| 0 <= jj < prev.len() && prev[jj] == p;
                                assert(parents@[jj] == p);
                            } else {
                                assert(parents@.last() == p);
                            }
                        }
                    }
                }
            } else {
                proof {
                    assert(self.parents@[k as int] == link);
                    assert forall|p: NoteId|
                        #[trigger] parents@.contains(p) <==> table_has_upto(
                            self.parents@,
                            id,
                            p,
                            k + 1,
                        ) by {
                        if parents@.contains(p) {
                            assert(table_has_upto(self.parents@, id, p, k as int));
                            let j = choose|j: int|
                                0 <= j < k && (#[trigger] self.parents@[j]).child == id
                                    && self.parents@[j].parent == p;
                            assert(table_has_upto(self.parents@, id, p, k + 1));
                        }
                        if table_has_upto(self.parents@, id, p, k + 1) {
                            let j = choose|j: int|
                                0 <= j < k + 1 && (#[trigger] self.parents@[j]).child == id
                                    && self.parents@[j].parent == p;
                            assert(j < k);
                            assert(table_has_upto(self.parents@, id, p, k as int));
                        }
                    }
                }
            }
            k = k + 1;
        }
        proof {
            self.lemma_table_links_are_parents(id);
        }
        Some(RichNote { id, text, children, parents })
    }
}

/// The keys of the notes, in entry order.
fn collect_keys(notes: &Vec<(NoteId, NoteInfo)>) -> (r: Vec<NoteId>)
    ensures
        r@.len() == notes@.len(),
        forall|i: int| 0 <= i < notes@.len() ==> r@[i] == (#[trigger] notes@[i]).0,
{
    let mut r: Vec<NoteId> = Vec::new();
    let mut i: usize = 0;
    while i < notes.len()
        invariant
            i <= notes@.len(),
            r@.len() == i,
            forall|j: int| 0 <= j < i ==> r@[j] == (#[trigger] notes@[j]).0,
        decreases notes@.len() - i,
    {
        r.push(notes[i].0);
        i = i + 1;
    }
    r
}

/// Whether a list of identifiers holds `id`.
fn contains_id(keys: &Vec<NoteId>, id: NoteId) -> (r: bool)
    ensures
        r == keys@.contains(id),
{
    let mut i: usize = 0;
    while i < keys.len()
        invariant
            i <= keys@.len(),
            forall|j: int| 0 <= j < i ==> keys@[j] != id,
        decreases keys@.len() - i,
    {
        if keys[i] == id {
            return true;
        }
        i = i + 1;
    }
    proof {
        if keys@.contains(id) {
            let j = choose|j: int| 0 <= j < keys@.len() && keys@[j] == id;
        }
    }
    false
}

/// Find the index of the entry keyed `id`, if there is one.
fn position_of(notes: &Vec<(NoteId, NoteInfo)>, id: NoteId) -> (r: Option<usize>)
    ensures
        match r {
            Some(i) => i < notes@.len() && notes@[i as int].0 == id,
            None => !has_key(notes@, id),
        },
{
    let mut i: usize = 0;
    while i < notes.len()
        invariant
            i <= notes@.len(),
            forall|j: int| 0 <= j < i ==> (#[trigger] notes@[j]).0 != id,
        decreases notes@.len() - i,
    {
        if notes[i].0 == id {
            return Some(i);
        }
        i = i + 1;
    }
    None
}

/// Resolve a signed child position to an index between 0 and the list
/// length, clamped at both ends.
fn resolve_child_position(children: &Vec<NoteId>, child_position: isize) -> (idx: usize)
    ensures
        idx == resolve_position_spec(children@.len(), child_position as int),
        idx <= children@.len(),
{
    let n = children.len();
    if child_position >= 0 {
        let p = child_position as usize;
        if p < n {
            p
        } else {
            n
        }
    } else {
        let k = (-(child_position + 1)) as usize;
        if k < n {
            n - k
        } else {
            0
        }
    }
}

/// Resolve a child id and iteration to the index of the iteration-th
/// occurrence of the id, scanning in list order.
fn resolve_child_iteration(children: &Vec<NoteId>, child_id: NoteId, child_iteration: usize) -> (r:
    Option<usize>)
    ensures
        match r {
            Some(i) => {
                &&& resolve_iteration_spec(children@, child_id, child_iteration as nat) == Some(
                    i as int,
                )
                &&& i < children@.len()
                &&& children@[i as int] == child_id
            },
            None => resolve_iteration_spec(children@, child_id, child_iteration as nat) is None,
        },
{
    let ghost cs = children@;
    let mut need: usize = child_iteration;
    let mut j: usize = 0;
    proof {
        assert(cs.skip(0) =~= cs);
    }
    while j < children.len()
        invariant
            cs == children@,
            j <= cs.len(),
            need <= child_iteration,
            resolve_iteration_spec(cs, child_id, child_iteration as nat) == (match
                resolve_iteration_spec(cs.skip(j as int), child_id, need as nat) {
                Some(x) => Some(x + j),
                None => None::<int>,
            }),
        decreases cs.len() - j,
    {
        let ghost tail = cs.skip(j as int);
        proof {
            assert(tail[0] == cs[j as int]);
            assert(tail.drop_first() =~= cs.skip(j + 1));
        }
        if children[j] == child_id {
            if need == 0 {
                proof {
                    assert(resolve_iteration_spec(tail, child_id, 0nat) == Some(0int));
                }
                return Some(j);
            }
            need = need - 1;
        }
        j = j + 1;
    }
    proof {
        assert(cs.skip(cs.len() as int).len() == 0);
    }
    None
}

/// Whether two lists of identifiers hold the same ids in the same order.
fn ids_equal(a: &Vec<NoteId>, b: &Vec<NoteId>) -> (r: bool)
    ensures
        r == (a@ == b@),
{
    if a.len() != b.len() {
        return false;
    }
    let mut i: usize = 0;
    while i < a.len()
        invariant
            a@.len() == b@.len(),
            i <= a@.len(),
            forall|j: int| 0 <= j < i ==> a@[j] == b@[j],
        decreases a@.len() - i,
    {
        if a[i] != b[i] {
            return false;
        }
        i = i + 1;
    }
    proof {
        assert(a@ =~= b@);
    }
    true
}

/// The derived parent-occurrence count for a note and a parent equals the
/// number of times the parent lists the note as a child; zero when the
/// parent does not exist. This holds in every well-formed store, so after
/// every structural mutation.
pub proof fn lemma_parent_count_matches(s: &Store, child: NoteId, parent: NoteId)
    ensures
        s.wf() ==> s.parent_count(child, parent) == (if s@.dom().contains(parent) {
            occ(s@[parent].children, child)
        } else {
            0nat
        }),
{
    if s.wf() {
        lemma_entries_map_dom(s.notes@);
        if s@.dom().contains(parent) {
            assert(has_key(s.notes@, parent));
            let i = choose|i: int|
                0 <= i < s.notes@.len() && (#[trigger] s.notes@[i]).0 == parent;
            lemma_derived_count_key(s.notes@, i, child);
            lemma_entries_map_index(s.notes@, i);
        } else {
            lemma_derived_count_absent(s.notes@, child, parent);
        }
    }
}

/// Deleting a note that is the sole child of another note leaves that
/// other note with no children at all.
pub proof fn lemma_delete_prunes_sole_child(m: Map<NoteId, NoteRec>, id: NoteId, k: NoteId)
    requires
        m.dom().contains(k),
        k != id,
        m[k].children == seq![id],
    ensures
        remove_note(m, id).dom().contains(k),
        remove_note(m, id)[k].children == Seq::<NoteId>::empty(),
{
    assert(seq![id].drop_last() =~= Seq::<NoteId>::empty());
    assert(remove_all(Seq::<NoteId>::empty(), id) == Seq::<NoteId>::empty());
    assert(remove_all(seq![id], id) == Seq::<NoteId>::empty());
}

/// Copy a list of identifiers.
fn clone_ids(v: &Vec<NoteId>) -> (r: Vec<NoteId>)
    ensures
        r@ == v@,
{
    let mut r: Vec<NoteId> = Vec::new();
    let mut i: usize = 0;
    while i < v.len()
        invariant
            i <= v@.len(),
            r@ =~= v@.take(i as int),
        decreases v@.len() - i,
    {
        r.push(v[i]);
        i = i + 1;
    }
    proof {
        assert(v@.take(v@.len() as int) =~= v@);
    }
    r
}

} // verus!
