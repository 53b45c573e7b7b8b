//! A first evaluation step over the syntax tree: lists and maps are rebuilt
//! with each child evaluated, and integers and strings evaluate to
//! themselves. At this stage that makes evaluation the identity on the
//! tree's value; symbols and the literals are not yet evaluable, so they are
//! excluded by precondition rather than ending the process.

use vstd::pervasive::unreached;
use vstd::prelude::*;

use crate::env::Env;
use crate::types::{
    entry_values_wf, lemma_entry_models_take_step, lemma_entry_values_wf_all, seq_models, seq_wf,
    unique_string_keys, MalList, MalMap, MalType,
};

verus! {

/// Whether this node can be evaluated at this stage: integers and strings,
/// and lists and maps of such nodes. Symbols and the literals are not.
pub open spec fn evaluable(v: MalType) -> bool
    decreases v,
{
    match v {
        MalType::List(l) => seq_evaluable(l.elements@),
        MalType::Dict(m) => entries_evaluable(m.entries@),
        MalType::Int(_) => true,
        MalType::Str(_) => true,
        _ => false,
    }
}

/// Every node in the sequence is evaluable.
pub open spec fn seq_evaluable(s: Seq<MalType>) -> bool
    decreases s,
{
    if s.len() == 0 {
        true
    } else {
        seq_evaluable(s.drop_last()) && evaluable(s.last())
    }
}

/// Every value in the association sequence is evaluable.
pub open spec fn entries_evaluable(s: Seq<(String, MalType)>) -> bool
    decreases s,
{
    if s.len() == 0 {
        true
    } else {
        entries_evaluable(s.drop_last()) && evaluable(s.last().1)
    }
}

proof fn lemma_seq_evaluable_all(s: Seq<MalType>)
    ensures
        seq_evaluable(s) ==> forall|i: int| 0 <= i < s.len() ==> evaluable(#[trigger] s[i]),
    decreases s.len(),
{
    if s.len() > 0 && seq_evaluable(s) {
        lemma_seq_evaluable_all(s.drop_last());
        assert forall|i: int| 0 <= i < s.len() implies evaluable(#[trigger] s[i]) by {
            if i < s.len() - 1 {
                assert(s.drop_last()[i] == s[i]);
            } else {
                assert(s[i] == s.last());
            }
        }
    }
}

proof fn lemma_seq_wf_all(s: Seq<MalType>)
    ensures
        seq_wf(s) ==> forall|i: int| 0 <= i < s.len() ==> (#[trigger] s[i]).wf(),
    decreases s.len(),
{
    if s.len() > 0 && seq_wf(s) {
        lemma_seq_wf_all(s.drop_last());
        assert forall|i: int| 0 <= i < s.len() implies (#[trigger] s[i]).wf() by {
            if i < s.len() - 1 {
                assert(s.drop_last()[i] == s[i]);
            } else {
                assert(s[i] == s.last());
            }
        }
    }
}

proof fn lemma_entries_evaluable_all(s: Seq<(String, MalType)>)
    ensures
        entries_evaluable(s) ==> forall|i: int| 0 <= i < s.len() ==> evaluable(
            (#[trigger] s[i]).1,
        ),
    decreases s.len(),
{
    if s.len() > 0 && entries_evaluable(s) {
        lemma_entries_evaluable_all(s.drop_last());
        assert forall|i: int| 0 <= i < s.len() implies evaluable((#[trigger] s[i]).1) by {
            if i < s.len() - 1 {
                assert(s.drop_last()[i] == s[i]);
            } else {
                assert(s[i] == s.last());
            }
        }
    }
}

/// Evaluates one node: children are evaluated recursively, and at this stage
/// the result denotes the same value as the input.
pub fn eval_ast(ast: MalType, env: &mut Env) -> (r: MalType)
    requires
        evaluable(ast),
        ast.wf(),
    ensures
        r.model() == ast.model(),
        r.wf(),
    decreases ast,
{
    match ast {
        MalType::List(l) => eval_list(l, env),
        MalType::Dict(m) => eval_map(m, env),
        MalType::Int(_) => ast,
        MalType::Str(_) => ast,
        _ => unreached(),
    }
}

/// Evaluates each element, in order.
fn eval_list(list: MalList, env: &mut Env) -> (r: MalType)
    requires
        seq_evaluable(list.elements@),
        seq_wf(list.elements@),
    ensures
        r.model() == MalType::List(list).model(),
        r.wf(),
    decreases list,
{
    let ghost orig = list.elements@;
    let mut src = list.elements;
    let n = src.len();
    let mut out: Vec<MalType> = Vec::new();
    let mut i: usize = 0;
    while src.len() > 0
        invariant
            orig == list.elements@,
            orig.len() == n,
            i + src.len() == n,
            src@ =~= orig.skip(i as int),
            seq_models(out@) == seq_models(orig.take(i as int)),
            seq_wf(out@),
            seq_evaluable(orig),
            seq_wf(orig),
        decreases src.len(),
    {
        let ghost prev = src@;
        let e = src.remove(0);
        proof {
            assert(prev[0] == orig[i as int]);
            assert(prev.remove(0) =~= orig.skip(i as int + 1));
            lemma_seq_evaluable_all(orig);
            lemma_seq_wf_all(orig);
        }
        let e2 = eval_ast(e, env);
        proof {
            assert(out@.push(e2).drop_last() =~= out@);
            assert(out@.push(e2).last() == e2);
            assert(orig.take(i as int + 1).drop_last() =~= orig.take(i as int));
            assert(orig.take(i as int + 1).last() == orig[i as int]);
        }
        out.push(e2);
        i = i + 1;
    }
    proof {
        assert(orig.take(n as int) =~= orig);
    }
    MalType::List(MalList::new(out))
}

/// Evaluates each entry's value, keeping the keys.
fn eval_map(map: MalMap, env: &mut Env) -> (r: MalType)
    requires
        entries_evaluable(map.entries@),
        unique_string_keys(map.entries@),
        entry_values_wf(map.entries@),
    ensures
        r.model() == MalType::Dict(map).model(),
        r.wf(),
    decreases map,
{
    let ghost orig = map.entries@;
    let mut src = map.entries;
    let n = src.len();
    let mut out = MalMap::empty();
    let mut i: usize = 0;
    while src.len() > 0
        invariant
            orig == map.entries@,
            orig.len() == n,
            i + src.len() == n,
            src@ =~= orig.skip(i as int),
            out.model() == crate::types::assoc_map(crate::types::entry_models(
                orig.take(i as int),
            )),
            out.wf(),
            entries_evaluable(orig),
            unique_string_keys(orig),
            entry_values_wf(orig),
        decreases src.len(),
    {
        let ghost prev = src@;
        let (k, v) = src.remove(0);
        proof {
            assert(prev[0] == orig[i as int]);
            assert(prev.remove(0) =~= orig.skip(i as int + 1));
            lemma_entries_evaluable_all(orig);
            lemma_entry_values_wf_all(orig);
            lemma_entry_models_take_step(orig, i as int);
        }
        let v2 = eval_ast(v, env);
        out.insert(k, v2);
        i = i + 1;
    }
    proof {
        assert(orig.take(n as int) =~= orig);
    }
    MalType::Dict(out)
}

} // verus!
