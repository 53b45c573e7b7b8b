//! The syntax-tree node type shared by the tokenizer's reader and its
//! consumers: lists, key/value maps, integers, symbols, strings, and the
//! literals `nil`/`true`/`false`.
//!
//! Each executable type has a mathematical model: a [`Val`], where a list is a
//! `Seq` of models and a map is a `Map` from key text to model. Map storage is
//! an explicitly ordered association vector rather than a hash table, so that
//! enumeration is deterministic; its invariant is that keys are unique, and a
//! duplicate key overwrites the earlier entry (last write wins).

use vstd::map::*;
use vstd::prelude::*;

verus! {

/// The mathematical model of one syntax-tree node.
pub enum Val {
    List(Seq<Val>),
    Dict(Map<Seq<char>, Val>),
    Int(int),
    Symbol(Seq<char>),
    Str(Seq<char>),
    Nil,
    False,
    True,
}

/// A syntax-tree node. Constructed by the reader from already-consumed
/// tokens; immutable thereafter.
#[derive(Debug, PartialEq)]
pub enum MalType {
    List(MalList),
    Dict(MalMap),
    Int(i64),
    Symbol(String),
    Str(String),
    Nil,
    False,
    True,
}

/// An ordered sequence of forms, delimited by parentheses in source text.
#[derive(Debug, PartialEq)]
pub struct MalList {
    pub elements: Vec<MalType>,
}

/// A key/value map, delimited by braces in source text. Keys are unique; a
/// duplicate key written later overwrites the earlier entry.
#[derive(Debug, PartialEq)]
pub struct MalMap {
    pub entries: Vec<(String, MalType)>,
}

/// The `Map` denoted by an association sequence, later entries winning.
pub open spec fn assoc_map(entries: Seq<(Seq<char>, Val)>) -> Map<Seq<char>, Val>
    decreases entries.len(),
{
    if entries.len() == 0 {
        Map::empty()
    } else {
        assoc_map(entries.drop_last()).insert(entries.last().0, entries.last().1)
    }
}

/// No two entries share a key.
pub open spec fn unique_string_keys(entries: Seq<(String, MalType)>) -> bool {
    forall|i: int, j: int| 0 <= i < j < entries.len() ==> entries[i].0@ != entries[j].0@
}

/// The models of a sequence of nodes, in order.
pub open spec fn seq_models(s: Seq<MalType>) -> Seq<Val>
    decreases s,
{
    if s.len() == 0 {
        Seq::empty()
    } else {
        seq_models(s.drop_last()).push(s.last().model())
    }
}

/// The models of an association sequence, in order.
pub open spec fn entry_models(s: Seq<(String, MalType)>) -> Seq<(Seq<char>, Val)>
    decreases s,
{
    if s.len() == 0 {
        Seq::empty()
    } else {
        entry_models(s.drop_last()).push((s.last().0@, s.last().1.model()))
    }
}

/// Every value in an association sequence is well formed.
pub open spec fn entry_values_wf(s: Seq<(String, MalType)>) -> bool
    decreases s,
{
    if s.len() == 0 {
        true
    } else {
        entry_values_wf(s.drop_last()) && s.last().1.wf()
    }
}

/// Every node in a sequence is well formed.
pub open spec fn seq_wf(s: Seq<MalType>) -> bool
    decreases s,
{
    if s.len() == 0 {
        true
    } else {
        seq_wf(s.drop_last()) && s.last().wf()
    }
}

impl MalType {
    /// The mathematical model of this node.
    pub open spec fn model(self) -> Val
        decreases self,
    {
        match self {
            MalType::List(l) => Val::List(seq_models(l.elements@)),
            MalType::Dict(m) => Val::Dict(assoc_map(entry_models(m.entries@))),
            MalType::Int(n) => Val::Int(n as int),
            MalType::Symbol(s) => Val::Symbol(s@),
            MalType::Str(s) => Val::Str(s@),
            MalType::Nil => Val::Nil,
            MalType::False => Val::False,
            MalType::True => Val::True,
        }
    }

    /// Every map inside this node has unique keys.
    pub open spec fn wf(self) -> bool
        decreases self,
    {
        match self {
            MalType::List(l) => seq_wf(l.elements@),
            MalType::Dict(m) => unique_string_keys(m.entries@) && entry_values_wf(m.entries@),
            _ => true,
        }
    }
}

impl MalList {
    /// The models of the elements, preserving their order.
    pub open spec fn models(self) -> Seq<Val> {
        seq_models(self.elements@)
    }

    pub open spec fn wf(self) -> bool {
        seq_wf(self.elements@)
    }

    pub fn new(elements: Vec<MalType>) -> (l: MalList)
        ensures
            l.elements == elements,
    {
        MalList { elements }
    }
}

impl MalMap {
    /// The map denoted by the entries, later entries winning.
    pub open spec fn model(self) -> Map<Seq<char>, Val> {
        assoc_map(entry_models(self.entries@))
    }

    pub open spec fn wf(self) -> bool {
        unique_string_keys(self.entries@) && entry_values_wf(self.entries@)
    }

    /// The empty map.
    pub fn empty() -> (m: MalMap)
        ensures
            m.wf(),
            m.model() == Map::<Seq<char>, Val>::empty(),
            m.entries@.len() == 0,
    {
        MalMap { entries: Vec::new() }
    }

    /// Builds a map from the given entries in order; a later entry with the
    /// same key overwrites the earlier one.
    pub fn new(entries: Vec<(String, MalType)>) -> (m: MalMap)
        ensures
            unique_string_keys(m.entries@),
            m.model() == assoc_map(entry_models(entries@)),
            entry_values_wf(entries@) ==> m.wf(),
    {
        let mut m = MalMap::empty();
        let mut src = entries;
        let n = src.len();
        let ghost all = src@;
        let mut i: usize = 0;
        while src.len() > 0
            invariant
                unique_string_keys(m.entries@),
                all.len() == n,
                i + src.len() == all.len(),
                src@ =~= all.skip(i as int),
                m.model() == assoc_map(entry_models(all.take(i as int))),
                entry_values_wf(all) ==> entry_values_wf(m.entries@),
            decreases src.len(),
        {
            let ghost prev = src@;
            let (k, v) = src.remove(0);
            proof {
                assert(prev[0] == all[i as int]);
                assert(prev.remove(0) =~= all.skip(i as int + 1));
                lemma_entry_models_take_step(all, i as int);
            }
            m.insert(k, v);
            i += 1;
        }
        proof {
            assert(all.take(all.len() as int) =~= all);
        }
        m
    }

    /// Inserts `key -> value`; an existing entry with the same key is
    /// overwritten, so keys stay unique.
    pub fn insert(&mut self, key: String, value: MalType)
        requires
            unique_string_keys(old(self).entries@),
        ensures
            unique_string_keys(final(self).entries@),
            final(self).model() == old(self).model().insert(key@, value.model()),
            entry_values_wf(old(self).entries@) && value.wf() ==> entry_values_wf(
                final(self).entries@,
            ),
    {
        let ghost before = self.entries@;
        let mut i: usize = 0;
        while i < self.entries.len()
            invariant
                old(self).entries@ == before,
                self.entries@ == before,
                i <= before.len(),
                unique_string_keys(before),
                forall|j: int| 0 <= j < i ==> before[j].0@ != key@,
            decreases before.len() - i,
        {
            if self.entries[i].0 == key {
                self.entries.remove(i);
                self.entries.push((key, value));
                proof {
                    lemma_insert_model(before, i as int, key, value);
                }
                proof {
                    lemma_insert_model(before, i as int, key, value);
                }
                return;
            }
            i += 1;
        }
        self.entries.push((key, value));
        proof {
            lemma_push_model(before, key, value);
        }
    }
}

/// Taking one more entry refines the denoted map by one insertion.
pub proof fn lemma_entry_models_take_step(s: Seq<(String, MalType)>, i: int)
    requires
        0 <= i < s.len(),
    ensures
        assoc_map(entry_models(s.take(i + 1))) == assoc_map(entry_models(s.take(i))).insert(
            s[i].0@,
            s[i].1.model(),
        ),
        entry_values_wf(s) ==> s[i].1.wf(),
{
    let t = s.take(i + 1);
    assert(t.drop_last() =~= s.take(i));
    assert(t.last() == s[i]);
    let em = entry_models(t);
    assert(em == entry_models(s.take(i)).push((s[i].0@, s[i].1.model())));
    assert(em.drop_last() =~= entry_models(s.take(i)));
    lemma_entry_values_wf_all(s);
}

/// `entry_values_wf` means each value in the sequence is well formed.
pub proof fn lemma_entry_values_wf_all(s: Seq<(String, MalType)>)
    ensures
        entry_values_wf(s) ==> forall|i: int| 0 <= i < s.len() ==> (#[trigger] s[i]).1.wf(),
    decreases s.len(),
{
    if s.len() > 0 && entry_values_wf(s) {
        lemma_entry_values_wf_all(s.drop_last());
        assert forall|i: int| 0 <= i < s.len() implies (#[trigger] s[i]).1.wf() by {
            if i < s.len() - 1 {
                assert(s.drop_last()[i] == s[i]);
            } else {
                assert(s[i] == s.last());
            }
        }
    }
}

/// Appending an entry updates the model by one insertion.
proof fn lemma_push_model(s: Seq<(String, MalType)>, key: String, value: MalType)
    ensures
        assoc_map(entry_models(s.push((key, value)))) == assoc_map(entry_models(s)).insert(
            key@,
            value.model(),
        ),
        entry_values_wf(s) && value.wf() ==> entry_values_wf(s.push((key, value))),
{
    let s2 = s.push((key, value));
    assert(s2.drop_last() =~= s);
    assert(entry_models(s2).drop_last() =~= entry_models(s2.drop_last()));
}

/// Removing the unique entry holding `key` and appending a fresh one updates
/// the model by one insertion.
proof fn lemma_insert_model(s: Seq<(String, MalType)>, i: int, key: String, value: MalType)
    requires
        0 <= i < s.len(),
        s[i].0@ == key@,
        unique_string_keys(s),
    ensures
        unique_string_keys(s.remove(i).push((key, value))),
        assoc_map(entry_models(s.remove(i).push((key, value)))) == assoc_map(
            entry_models(s),
        ).insert(key@, value.model()),
        entry_values_wf(s) && value.wf() ==> entry_values_wf(s.remove(i).push((key, value))),
{
    let removed = s.remove(i);
    assert(unique_string_keys(removed)) by {
        assert(forall|a: int, b: int|
            0 <= a < b < removed.len() ==> removed[a].0@ != removed[b].0@) by {
            assert forall|a: int, b: int|
                0 <= a < b < removed.len() implies removed[a].0@ != removed[b].0@ by {
                let a0 = if a < i { a } else { a + 1 };
                let b0 = if b < i { b } else { b + 1 };
                assert(removed[a] == s[a0]);
                assert(removed[b] == s[b0]);
            }
        }
    }
    assert(forall|j: int| 0 <= j < removed.len() ==> (#[trigger] removed[j]).0@ != key@) by {
        assert forall|j: int| 0 <= j < removed.len() implies (#[trigger] removed[j]).0@ != key@ by {
            let j0 = if j < i { j } else { j + 1 };
            assert(removed[j] == s[j0]);
        }
    }
    lemma_assoc_remove(s, i);
    lemma_push_model(removed, key, value);
    assert(assoc_map(entry_models(removed)).insert(key@, value.model()) =~= assoc_map(
        entry_models(s),
    ).insert(key@, value.model()));
    assert(entry_values_wf(s) && value.wf() ==> entry_values_wf(removed.push((key, value)))) by {
        if entry_values_wf(s) && value.wf() {
            lemma_entry_values_wf_all(s);
            lemma_entry_values_wf_from_all(removed);
            lemma_push_model(removed, key, value);
        }
    }
}

/// Elementwise well-formed values give `entry_values_wf`.
proof fn lemma_entry_values_wf_from_all(s: Seq<(String, MalType)>)
    requires
        forall|i: int| 0 <= i < s.len() ==> (#[trigger] s[i]).1.wf(),
    ensures
        entry_values_wf(s),
    decreases s.len(),
{
    if s.len() > 0 {
        lemma_entry_values_wf_from_all(s.drop_last());
    }
}

/// Dropping the entry at `i` does not change the denoted map wherever the
/// result is then overwritten at that entry's key.
proof fn lemma_assoc_remove(s: Seq<(String, MalType)>, i: int)
    requires
        0 <= i < s.len(),
        unique_string_keys(s),
    ensures
        forall|v: Val|
            assoc_map(entry_models(s.remove(i))).insert(s[i].0@, v) =~= assoc_map(
                entry_models(s),
            ).insert(s[i].0@, v),
    decreases s.len(),
{
    let k = s[i].0@;
    let t = s.drop_last();
    let em = entry_models(s);
    assert(em == entry_models(t).push((s.last().0@, s.last().1.model())));
    assert(em.drop_last() =~= entry_models(t));
    assert(em.last() == (s.last().0@, s.last().1.model()));
    assert(assoc_map(em) == assoc_map(entry_models(t)).insert(s.last().0@, s.last().1.model()));
    if i == s.len() - 1 {
        assert(s[i] == s.last());
        assert(s.remove(i) =~= t);
        let m1 = assoc_map(entry_models(t));
        let lv = s.last().1.model();
        assert(entry_models(s.remove(i)) == entry_models(t));
        assert(assoc_map(entry_models(s)) == m1.insert(k, lv));
        assert forall|v: Val|
            assoc_map(entry_models(s.remove(i))).insert(k, v) =~= assoc_map(entry_models(s)).insert(
                k,
                v,
            ) by {
            assert(m1.insert(k, v) =~= m1.insert(k, lv).insert(k, v));
            assert(assoc_map(entry_models(s.remove(i))).insert(k, v) == m1.insert(k, v));
            assert(assoc_map(entry_models(s)).insert(k, v) == m1.insert(k, lv).insert(k, v));
        }
    } else {
        assert(0 <= i < t.len());
        assert(t[i] == s[i]);
        lemma_assoc_remove(t, i);
        let r = s.remove(i);
        assert(r.drop_last() =~= t.remove(i));
        assert(r.last() == s.last());
        assert(s.last().0@ != k);
        let emr = entry_models(r);
        assert(emr == entry_models(r.drop_last()).push((r.last().0@, r.last().1.model())));
        assert(emr.drop_last() =~= entry_models(t.remove(i)));
        assert(emr.last() == (s.last().0@, s.last().1.model()));
        let lk = s.last().0@;
        let lv = s.last().1.model();
        assert(assoc_map(emr) == assoc_map(entry_models(t.remove(i))).insert(lk, lv));
        assert forall|v: Val|
            assoc_map(entry_models(s.remove(i))).insert(k, v) =~= assoc_map(entry_models(s)).insert(
                k,
                v,
            ) by {
            let b1 = assoc_map(entry_models(t.remove(i)));
            let b2 = assoc_map(entry_models(t));
            assert(b1.insert(t[i].0@, v) =~= b2.insert(t[i].0@, v));
            assert(b1.insert(k, v) == b2.insert(k, v));
            let l1 = b1.insert(lk, lv).insert(k, v);
            let l2 = b2.insert(lk, lv).insert(k, v);
            assert forall|x: Seq<char>| #![trigger l1.dom().contains(x)] l1.dom().contains(x)
                implies l2.dom().contains(x) && l1[x] == l2[x] by {
                if x != k && x != lk {
                    assert(b1.dom().contains(x));
                    assert(b1.insert(k, v).dom().contains(x));
                    assert(b2.insert(k, v).dom().contains(x));
                    assert(b2.dom().contains(x));
                    assert(b1[x] == b1.insert(k, v)[x]);
                    assert(b2[x] == b2.insert(k, v)[x]);
                }
            }
            assert forall|x: Seq<char>| #![trigger l2.dom().contains(x)] l2.dom().contains(x)
                implies l1.dom().contains(x) by {
                if x != k && x != lk {
                    assert(b2.dom().contains(x));
                    assert(b2.insert(k, v).dom().contains(x));
                    assert(b1.insert(k, v).dom().contains(x));
                    assert(b1.dom().contains(x));
                }
            }
            assert forall|x: Seq<char>|
                #![trigger l1.dom().contains(x)]
                #![trigger l2.dom().contains(x)]
                l1.dom().contains(x) == l2.dom().contains(x) by {
                assert(l1.dom().contains(x) ==> l2.dom().contains(x));
                assert(l2.dom().contains(x) ==> l1.dom().contains(x));
            }
            assert(l1.dom() =~= l2.dom());
            assert(l1 =~= l2);
            assert(assoc_map(entry_models(s.remove(i))).insert(k, v) == l1);
            assert(assoc_map(entry_models(s)).insert(k, v) == l2);
        }
    }
}

} // verus!
