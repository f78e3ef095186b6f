//! What the emitter owes: for each layout, whether it gets a helper, under
//! which key its id is interned, and what the helper's body is.
use vstd::prelude::*;
use crate::encode::{enc, enc_seq, enc_tags};
use crate::helper::{FieldVisit, HelperKind, HelperName, Mode, Step};
use crate::ids::{distinct_keys, id_of, lemma_id_of};
use crate::layout::{
    any_contains_refcounted, contains_refcounted, wf_layout, Builtin, Layout, MemoryMode, UnionLayout,
};

verus! {

/// The tags of a recursive union as the helper sees them. The single tag of
/// `NullableUnwrapped` drops its first field, the tag slot.
pub open spec fn rec_tags(u: UnionLayout) -> Seq<Seq<Layout>> {
    match u {
        UnionLayout::Recursive(tags) => tags@.map_values(|t: Vec<Layout>| t@),
        UnionLayout::NullableWrapped { other_tags, .. } => other_tags@.map_values(
            |t: Vec<Layout>| t@,
        ),
        UnionLayout::NonNullableUnwrapped(fields) => seq![fields@],
        UnionLayout::NullableUnwrapped { other_fields, .. } => seq![
            other_fields@.subrange(1, other_fields@.len() as int),
        ],
        UnionLayout::NonRecursive(tags) => tags@.map_values(|t: Vec<Layout>| t@),
    }
}

/// The key of a recursive union's helpers: the encoding of the plain
/// recursive union with the same tags.
pub open spec fn rec_key(u: UnionLayout) -> Seq<u64> {
    match u {
        UnionLayout::Recursive(tags) => seq![2u64, 1u64] + enc_tags(tags@),
        UnionLayout::NullableWrapped { other_tags, .. } => seq![2u64, 1u64] + enc_tags(other_tags@),
        UnionLayout::NonNullableUnwrapped(fields) => seq![2u64, 1u64, 1u64] + enc_seq(fields@),
        UnionLayout::NullableUnwrapped { other_fields, .. } => seq![2u64, 1u64, 1u64] + enc_seq(
            other_fields@.subrange(1, other_fields@.len() as int),
        ),
        UnionLayout::NonRecursive(_) => enc(Layout::Union(u)),
    }
}

/// The family of the helper a layout gets, if it gets one; `lp` is the
/// union that a recursive pointer refers to, where there is one.
pub open spec fn helper_kind(l: Layout, lp: Option<UnionLayout>) -> Option<HelperKind> {
    match l {
        Layout::Builtin(b) => match b {
            Builtin::List(m, _) => if m == MemoryMode::Refcounted {
                Some(HelperKind::List)
            } else {
                None
            },
            Builtin::Str => Some(HelperKind::Str),
            Builtin::Dict(_, _) | Builtin::SetOf(_) => Some(HelperKind::Dict),
            _ => None,
        },
        Layout::Struct(_) => Some(HelperKind::Struct),
        Layout::Union(u) => match u {
            UnionLayout::NonRecursive(_) => Some(HelperKind::Union),
            _ => Some(HelperKind::RecUnion),
        },
        Layout::Closure(_, captured, _) => if contains_refcounted(*captured) {
            Some(HelperKind::Struct)
        } else {
            None
        },
        Layout::RecursivePointer => match lp {
            Some(_) => Some(HelperKind::RecUnion),
            None => None,
        },
        _ => None,
    }
}

/// The encoding under which a layout's helper id is interned.
pub open spec fn key_of(l: Layout, lp: Option<UnionLayout>) -> Seq<u64> {
    match l {
        Layout::Union(u) => match u {
            UnionLayout::NonRecursive(_) => enc(l),
            _ => rec_key(u),
        },
        Layout::RecursivePointer => match lp {
            Some(u) => rec_key(u),
            None => enc(l),
        },
        _ => enc(l),
    }
}

/// `n` names the `mode` helper of `l` among the interned keys `ids`.
pub open spec fn names_helper(
    n: HelperName,
    l: Layout,
    lp: Option<UnionLayout>,
    mode: Mode,
    ids: Seq<Seq<u64>>,
) -> bool {
    &&& n.mode == mode
    &&& helper_kind(l, lp) == Some(n.kind)
    &&& n.id < ids.len()
    &&& ids[n.id as int] == key_of(l, lp)
}

/// The name of the `mode` helper of `l` among the interned keys `ids`.
pub open spec fn name_for(l: Layout, lp: Option<UnionLayout>, mode: Mode, ids: Seq<Seq<u64>>) -> HelperName {
    HelperName {
        mode,
        kind: helper_kind(l, lp)->Some_0,
        id: id_of(ids, key_of(l, lp)) as u64,
    }
}

/// The helper names of each layout of a sequence.
pub open spec fn names_for(
    fields: Seq<Layout>,
    lp: Option<UnionLayout>,
    mode: Mode,
    ids: Seq<Seq<u64>>,
) -> Seq<HelperName> {
    Seq::new(fields.len(), |i: int| name_for(fields[i], lp, mode, ids))
}

/// `name_for` when the layout contains refcounted data, else nothing.
pub open spec fn name_if_refcounted(
    l: Layout,
    lp: Option<UnionLayout>,
    mode: Mode,
    ids: Seq<Seq<u64>>,
) -> Option<HelperName> {
    if contains_refcounted(l) {
        Some(name_for(l, lp, mode, ids))
    } else {
        None
    }
}

/// A visit of each field that contains refcounted data, in field order,
/// with the helper given for it in `names`.
pub open spec fn filter_visits(fields: Seq<Layout>, names: Seq<HelperName>) -> Seq<FieldVisit>
    decreases fields.len(),
{
    if fields.len() == 0 {
        Seq::empty()
    } else {
        let i = fields.len() - 1;
        filter_visits(fields.drop_last(), names) + if contains_refcounted(fields[i]) {
            seq![FieldVisit { index: i as u64, helper: names[i] }]
        } else {
            Seq::empty()
        }
    }
}

/// Phase A of a recursive union's case: load every recursive pointer and
/// every other refcounted field, in field order.
pub open spec fn load_steps(fields: Seq<Layout>) -> Seq<Step>
    decreases fields.len(),
{
    if fields.len() == 0 {
        Seq::empty()
    } else {
        let i = fields.len() - 1;
        load_steps(fields.drop_last()) + if fields[i] is RecursivePointer {
            seq![Step::LoadRecursive(i as u64)]
        } else if contains_refcounted(fields[i]) {
            seq![Step::LoadField(i as u64)]
        } else {
            Seq::empty()
        }
    }
}

/// Phase C: modify every loaded field that is not a recursive pointer.
pub open spec fn modify_steps(fields: Seq<Layout>, names: Seq<HelperName>) -> Seq<Step>
    decreases fields.len(),
{
    if fields.len() == 0 {
        Seq::empty()
    } else {
        let i = fields.len() - 1;
        modify_steps(fields.drop_last(), names) + if !(fields[i] is RecursivePointer)
            && contains_refcounted(fields[i]) {
            seq![Step::ModifyField(FieldVisit { index: i as u64, helper: names[i] })]
        } else {
            Seq::empty()
        }
    }
}

/// Phase D: call this same helper, as a tail call, on every recursive
/// pointer.
pub open spec fn call_steps(fields: Seq<Layout>) -> Seq<Step>
    decreases fields.len(),
{
    if fields.len() == 0 {
        Seq::empty()
    } else {
        let i = fields.len() - 1;
        call_steps(fields.drop_last()) + if fields[i] is RecursivePointer {
            seq![Step::CallSelf { index: i as u64, tail: true }]
        } else {
            Seq::empty()
        }
    }
}

/// A recursive union's case for one tag: load, modify the cell, modify the
/// other fields, then recurse.
pub open spec fn rec_case_steps(fields: Seq<Layout>, names: Seq<HelperName>) -> Seq<Step> {
    load_steps(fields) + seq![Step::ModifySelf] + modify_steps(fields, names) + call_steps(fields)
}

/// The helper names of each field of each tag.
pub open spec fn names_table(
    tags: Seq<Seq<Layout>>,
    lp: Option<UnionLayout>,
    mode: Mode,
    ids: Seq<Seq<u64>>,
) -> Seq<Seq<HelperName>> {
    Seq::new(tags.len(), |t: int| names_for(tags[t], lp, mode, ids))
}

/// The cases of a non-recursive union: one per tag with refcounted fields,
/// in tag order, with the field helpers of `table`.
pub open spec fn union_cases(tags: Seq<Seq<Layout>>, table: Seq<Seq<HelperName>>) -> Seq<
    (u64, Seq<FieldVisit>),
>
    decreases tags.len(),
{
    if tags.len() == 0 {
        Seq::empty()
    } else {
        let t = tags.len() - 1;
        union_cases(tags.drop_last(), table) + if any_contains_refcounted(tags[t]) {
            seq![(t as u64, filter_visits(tags[t], table[t]))]
        } else {
            Seq::empty()
        }
    }
}

/// The cases of a recursive union: one per tag with refcounted fields, in
/// tag order, with the field helpers of `table`.
pub open spec fn rec_cases(tags: Seq<Seq<Layout>>, table: Seq<Seq<HelperName>>) -> Seq<
    (u64, Seq<Step>),
>
    decreases tags.len(),
{
    if tags.len() == 0 {
        Seq::empty()
    } else {
        let t = tags.len() - 1;
        rec_cases(tags.drop_last(), table) + if any_contains_refcounted(tags[t]) {
            seq![(t as u64, rec_case_steps(tags[t], table[t]))]
        } else {
            Seq::empty()
        }
    }
}

/// Whether every tag has a field that contains refcounted data.
pub open spec fn all_tags_refcounted(tags: Seq<Seq<Layout>>) -> bool {
    forall|t: int| 0 <= t < tags.len() ==> #[trigger] any_contains_refcounted(tags[t])
}

/// Two name sequences that agree on every field with refcounted data.
pub open spec fn agree_on_refcounted(
    fields: Seq<Layout>,
    n1: Seq<HelperName>,
    n2: Seq<HelperName>,
) -> bool {
    forall|i: int| 0 <= i < fields.len() && contains_refcounted(fields[i]) ==> #[trigger] n1[i] == n2[i]
}

pub proof fn lemma_filter_visits_agree(fields: Seq<Layout>, n1: Seq<HelperName>, n2: Seq<HelperName>)
    requires
        agree_on_refcounted(fields, n1, n2),
    ensures
        filter_visits(fields, n1) == filter_visits(fields, n2),
        modify_steps(fields, n1) == modify_steps(fields, n2),
    decreases fields.len(),
{
    if fields.len() > 0 {
        let i = fields.len() - 1;
        assert(contains_refcounted(fields[i]) ==> n1[i] == n2[i]);
        lemma_filter_visits_agree(fields.drop_last(), n1, n2);
    }
}

pub proof fn lemma_cases_agree(
    tags: Seq<Seq<Layout>>,
    t1: Seq<Seq<HelperName>>,
    t2: Seq<Seq<HelperName>>,
)
    requires
        forall|t: int| 0 <= t < tags.len() ==> agree_on_refcounted(tags[t], #[trigger] t1[t], t2[t]),
    ensures
        union_cases(tags, t1) == union_cases(tags, t2),
        rec_cases(tags, t1) == rec_cases(tags, t2),
    decreases tags.len(),
{
    if tags.len() > 0 {
        let t = tags.len() - 1;
        lemma_filter_visits_agree(tags[t], t1[t], t2[t]);
        lemma_cases_agree(tags.drop_last(), t1, t2);
    }
}

/// Among distinct keys, a name that names a layout's helper is its name.
pub proof fn lemma_name_for(n: HelperName, l: Layout, lp: Option<UnionLayout>, mode: Mode, ids: Seq<Seq<u64>>)
    requires
        distinct_keys(ids),
        names_helper(n, l, lp, mode, ids),
    ensures
        n == name_for(l, lp, mode, ids),
{
    lemma_id_of(ids, n.id as int);
}

/// A well-formed layout that contains refcounted data gets a helper.
pub proof fn lemma_refcounted_has_helper(l: Layout, lp: Option<UnionLayout>)
    requires
        contains_refcounted(l),
        wf_layout(l, lp is Some),
    ensures
        helper_kind(l, lp) is Some,
{
}

proof fn lemma_load_steps_shape(fields: Seq<Layout>)
    ensures
        forall|k: int|
            0 <= k < load_steps(fields).len() ==> (#[trigger] load_steps(fields)[k] is LoadRecursive)
                || load_steps(fields)[k] is LoadField,
    decreases fields.len(),
{
    if fields.len() > 0 {
        lemma_load_steps_shape(fields.drop_last());
    }
}

proof fn lemma_modify_steps_shape(fields: Seq<Layout>, names: Seq<HelperName>)
    ensures
        forall|k: int|
            0 <= k < modify_steps(fields, names).len() ==> #[trigger] modify_steps(fields, names)[k] is ModifyField,
    decreases fields.len(),
{
    if fields.len() > 0 {
        lemma_modify_steps_shape(fields.drop_last(), names);
    }
}

proof fn lemma_call_steps_shape(fields: Seq<Layout>)
    ensures
        forall|k: int|
            0 <= k < call_steps(fields).len() ==> (#[trigger] call_steps(fields)[k] is CallSelf)
                && call_steps(fields)[k]->tail,
    decreases fields.len(),
{
    if fields.len() > 0 {
        lemma_call_steps_shape(fields.drop_last());
    }
}

/// In a recursive union's case every call of the helper itself is marked
/// as a tail call, and only such calls follow it: the cell and all other
/// fields are done before the helper recurses.
pub proof fn lemma_self_calls_are_tail_calls(fields: Seq<Layout>, names: Seq<HelperName>, k: int)
    requires
        0 <= k < rec_case_steps(fields, names).len(),
        rec_case_steps(fields, names)[k] is CallSelf,
    ensures
        rec_case_steps(fields, names)[k]->tail,
        forall|j: int|
            k <= j < rec_case_steps(fields, names).len() ==> #[trigger] rec_case_steps(fields, names)[j] is CallSelf,
{
    let steps = rec_case_steps(fields, names);
    let a = load_steps(fields);
    let m = modify_steps(fields, names);
    let c = call_steps(fields);
    lemma_load_steps_shape(fields);
    lemma_modify_steps_shape(fields, names);
    lemma_call_steps_shape(fields);
    let start = a.len() + 1 + m.len();
    assert forall|j: int| 0 <= j < steps.len() implies (#[trigger] steps[j] is CallSelf) == (j >= start) by {
        if j < a.len() {
            assert(steps[j] == a[j]);
        } else if j == a.len() {
            assert(steps[j] == Step::ModifySelf);
        } else if j < start {
            assert(steps[j] == m[j - a.len() - 1]);
        } else {
            assert(steps[j] == c[j - start]);
        }
    }
    assert(steps[k] == c[k - start]);
}


/// Two helper names for the same layout and id, one per mode.
pub open spec fn mode_twins(a: HelperName, b: HelperName) -> bool {
    a.kind == b.kind && a.id == b.id
}

/// Two step sequences that agree but for the mode of the helpers they call.
pub open spec fn same_steps_but_mode(a: Seq<Step>, b: Seq<Step>) -> bool {
    &&& a.len() == b.len()
    &&& forall|k: int|
        0 <= k < a.len() ==> match (#[trigger] a[k], b[k]) {
            (Step::ModifyField(x), Step::ModifyField(y)) => x.index == y.index && mode_twins(
                x.helper,
                y.helper,
            ),
            (x, y) => x == y,
        }
}

proof fn lemma_visits_but_mode(fields: Seq<Layout>, n1: Seq<HelperName>, n2: Seq<HelperName>)
    requires
        forall|i: int| 0 <= i < fields.len() ==> mode_twins(#[trigger] n1[i], n2[i]),
    ensures
        filter_visits(fields, n1).len() == filter_visits(fields, n2).len(),
        forall|k: int|
            0 <= k < filter_visits(fields, n1).len() ==> (#[trigger] filter_visits(fields, n1)[k]).index
                == filter_visits(fields, n2)[k].index && mode_twins(
                filter_visits(fields, n1)[k].helper,
                filter_visits(fields, n2)[k].helper,
            ),
        same_steps_but_mode(modify_steps(fields, n1), modify_steps(fields, n2)),
    decreases fields.len(),
{
    if fields.len() > 0 {
        let i = fields.len() - 1;
        assert(mode_twins(n1[i], n2[i]));
        lemma_visits_but_mode(fields.drop_last(), n1, n2);
        let a = filter_visits(fields.drop_last(), n1);
        let b = filter_visits(fields.drop_last(), n2);
        assert forall|k: int| 0 <= k < filter_visits(fields, n1).len() implies (#[trigger] filter_visits(
            fields,
            n1,
        )[k]).index == filter_visits(fields, n2)[k].index && mode_twins(
            filter_visits(fields, n1)[k].helper,
            filter_visits(fields, n2)[k].helper,
        ) by {
            if k < a.len() {
                assert(filter_visits(fields, n1)[k] == a[k]);
                assert(filter_visits(fields, n2)[k] == b[k]);
            }
        }
        let m1 = modify_steps(fields.drop_last(), n1);
        let m2 = modify_steps(fields.drop_last(), n2);
        assert forall|k: int| 0 <= k < modify_steps(fields, n1).len() implies match (
            #[trigger] modify_steps(fields, n1)[k],
            modify_steps(fields, n2)[k],
        ) {
            (Step::ModifyField(x), Step::ModifyField(y)) => x.index == y.index && mode_twins(
                x.helper,
                y.helper,
            ),
            (x, y) => x == y,
        } by {
            if k < m1.len() {
                assert(modify_steps(fields, n1)[k] == m1[k]);
                assert(modify_steps(fields, n2)[k] == m2[k]);
            }
        }
    }
}

/// The increment and decrement helpers of a layout reach the same cells:
/// they visit the same fields of each tag, in the same order, through
/// helpers of the same layouts, and change their own cell at the same step.
pub proof fn lemma_inc_dec_reach_same_cells(
    fields: Seq<Layout>,
    lp: Option<UnionLayout>,
    ids: Seq<Seq<u64>>,
)
    ensures
        ({
            let inc = filter_visits(fields, names_for(fields, lp, Mode::Inc, ids));
            let dec = filter_visits(fields, names_for(fields, lp, Mode::Dec, ids));
            &&& inc.len() == dec.len()
            &&& forall|k: int|
                0 <= k < inc.len() ==> (#[trigger] inc[k]).index == dec[k].index && mode_twins(
                    inc[k].helper,
                    dec[k].helper,
                )
        }),
        same_steps_but_mode(
            rec_case_steps(fields, names_for(fields, lp, Mode::Inc, ids)),
            rec_case_steps(fields, names_for(fields, lp, Mode::Dec, ids)),
        ),
{
    let n1 = names_for(fields, lp, Mode::Inc, ids);
    let n2 = names_for(fields, lp, Mode::Dec, ids);
    lemma_visits_but_mode(fields, n1, n2);
    let a = load_steps(fields);
    let m1 = modify_steps(fields, n1);
    let m2 = modify_steps(fields, n2);
    let c = call_steps(fields);
    let s1 = rec_case_steps(fields, n1);
    let s2 = rec_case_steps(fields, n2);
    assert forall|k: int| 0 <= k < s1.len() implies match (#[trigger] s1[k], s2[k]) {
        (Step::ModifyField(x), Step::ModifyField(y)) => x.index == y.index && mode_twins(
            x.helper,
            y.helper,
        ),
        (x, y) => x == y,
    } by {
        if k < a.len() {
            assert(s1[k] == a[k] && s2[k] == a[k]);
        } else if k == a.len() {
            assert(s1[k] == Step::ModifySelf && s2[k] == Step::ModifySelf);
        } else if k < a.len() + 1 + m1.len() {
            assert(s1[k] == m1[k - a.len() - 1]);
            assert(s2[k] == m2[k - a.len() - 1]);
        } else {
            assert(s1[k] == c[k - a.len() - 1 - m1.len()]);
            assert(s2[k] == c[k - a.len() - 1 - m2.len()]);
        }
    }
}

} // verus!
