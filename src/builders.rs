//! The recursive part of emission: each layout family's helper is
//! declared, the helpers of its parts are emitted, and then its body is
//! built from their names.
use vstd::prelude::*;
use crate::emit::{
    body_kept, body_refs_ok, ctx_ok, emitted, lemma_ctx_kept, lemma_grows_trans,
    lemma_has_name_kept, lemma_names_kept, loop_union, opt_name_ok, opt_names_ok, rec_cases_view,
    some_names, tags_view, union_cases_view, Emitter, WhenRecursive,
};
use crate::encode::{enc, encode_into, encode_items_from, encode_seq_into, encode_tags_into};
use crate::helper::{FieldVisit, Helper, HelperBody, HelperKind, HelperName, Mode, RecCase, Step, UnionCase};
use crate::layout::{
    contains_refcounted, fields_contain_refcounted, lemma_wf_fields, lemma_wf_fields_skip,
    lemma_wf_tags, union_is_recursive, wf_fields, wf_layout, wf_tags, Builtin, Layout, MemoryMode,
    UnionLayout,
};
use crate::plan::{
    all_tags_refcounted, call_steps, filter_visits, lemma_cases_agree, lemma_filter_visits_agree,
    lemma_name_for, lemma_refcounted_has_helper, load_steps, modify_steps, name_for,
    name_if_refcounted, names_for, names_helper, names_table, rec_case_steps, rec_cases, rec_key,
    rec_tags, union_cases,
};

verus! {

/// Appends the key of a recursive union's helpers.
fn encode_rec_key_into(u: &UnionLayout, out: &mut Vec<u64>)
    requires
        union_is_recursive(*u),
        u matches UnionLayout::NullableUnwrapped { other_fields, .. } ==> other_fields.len() > 0,
    ensures
        final(out)@ == old(out)@ + rec_key(*u),
{
    let ghost start = out@;
    out.push(2);
    out.push(1);
    match u {
        UnionLayout::Recursive(tags) => {
            encode_tags_into(tags, out);
        },
        UnionLayout::NullableWrapped { other_tags, .. } => {
            encode_tags_into(other_tags, out);
        },
        UnionLayout::NonNullableUnwrapped(fields) => {
            out.push(1);
            encode_seq_into(fields, out);
        },
        UnionLayout::NullableUnwrapped { other_fields, .. } => {
            out.push(1);
            out.push((other_fields.len() - 1) as u64);
            encode_items_from(other_fields, 1, out);
        },
        UnionLayout::NonRecursive(_) => {},
    }
    assert(out@ =~= start + rec_key(*u));
}

/// The visits of the fields whose helper is given, in field order.
fn visits_from(names: &Vec<Option<HelperName>>, Ghost(fields): Ghost<Seq<Layout>>) -> (r: Vec<
    FieldVisit,
>)
    requires
        names@.len() == fields.len(),
        forall|i: int| 0 <= i < fields.len() ==> (#[trigger] names@[i] is Some) == contains_refcounted(fields[i]),
    ensures
        r@ == filter_visits(fields, some_names(names@)),
        forall|k: int|
            0 <= k < r@.len() ==> (#[trigger] r@[k]).index < names@.len() && names@[r@[k].index as int]
                == Some(r@[k].helper),
{
    let mut r: Vec<FieldVisit> = Vec::new();
    let mut i: usize = 0;
    while i < names.len()
        invariant
            names@.len() == fields.len(),
            forall|i: int| 0 <= i < fields.len() ==> (#[trigger] names@[i] is Some) == contains_refcounted(fields[i]),
            i <= names@.len(),
            r@ == filter_visits(fields.subrange(0, i as int), some_names(names@)),
            forall|k: int|
                0 <= k < r@.len() ==> (#[trigger] r@[k]).index < i && names@[r@[k].index as int]
                    == Some(r@[k].helper),
        decreases names@.len() - i,
    {
        proof {
            let sub = fields.subrange(0, i + 1);
            assert(sub.drop_last() =~= fields.subrange(0, i as int));
            assert(sub[i as int] == fields[i as int]);
            assert(names@[i as int] is Some == contains_refcounted(fields[i as int]));
        }
        match names[i] {
            Some(n) => {
                r.push(FieldVisit { index: i as u64, helper: n });
            },
            None => {},
        }
        proof {
            let sub = fields.subrange(0, i + 1);
            assert(r@ =~= filter_visits(sub, some_names(names@)));
        }
        i = i + 1;
    }
    assert(fields.subrange(0, i as int) =~= fields);
    r
}

/// The steps of a recursive union's case for the fields of `tag` from
/// `skip` on, with the helpers of `names`.
fn rec_steps(tag: &Vec<Layout>, skip: usize, names: &Vec<Option<HelperName>>) -> (r: Vec<Step>)
    requires
        skip <= tag@.len(),
        names@.len() == tag@.len() - skip,
        forall|i: int|
            0 <= i < names@.len() ==> (#[trigger] names@[i] is Some) == contains_refcounted(
                tag@[skip + i],
            ),
    ensures
        r@ == rec_case_steps(tag@.subrange(skip as int, tag@.len() as int), some_names(names@)),
        forall|k: int|
            0 <= k < r@.len() && (#[trigger] r@[k]) is ModifyField ==> r@[k]->ModifyField_0.index
                < names@.len() && names@[r@[k]->ModifyField_0.index as int] == Some(
                r@[k]->ModifyField_0.helper,
            ),
{
    let ghost fields = tag@.subrange(skip as int, tag@.len() as int);
    let ghost nm = some_names(names@);
    let n = names.len();
    let tl = tag.len();
    let mut r: Vec<Step> = Vec::new();
    let mut i: usize = 0;
    while i < n
        invariant
            n == names@.len(),
            n == fields.len(),
            skip + n == tl,
            tl == tag@.len(),
            fields == tag@.subrange(skip as int, tag@.len() as int),
            forall|i: int|
                0 <= i < names@.len() ==> (#[trigger] names@[i] is Some) == contains_refcounted(
                    tag@[skip + i],
                ),
            i <= n,
            r@ == load_steps(fields.subrange(0, i as int)),
            forall|k: int| 0 <= k < r@.len() ==> !((#[trigger] r@[k]) is ModifyField),
        decreases n - i,
    {
        proof {
            let sub = fields.subrange(0, i + 1);
            assert(sub.drop_last() =~= fields.subrange(0, i as int));
            assert(sub[i as int] == tag@[skip + i]);
            assert(names@[i as int] is Some == contains_refcounted(tag@[skip + i]));
        }
        let is_rec = match &tag[skip + i] {
            Layout::RecursivePointer => true,
            _ => false,
        };
        if is_rec {
            r.push(Step::LoadRecursive(i as u64));
        } else if names[i].is_some() {
            r.push(Step::LoadField(i as u64));
        }
        proof {
            assert(r@ =~= load_steps(fields.subrange(0, i + 1)));
        }
        i = i + 1;
    }
    assert(fields.subrange(0, n as int) =~= fields);
    r.push(Step::ModifySelf);
    let ghost prefix = r@;
    i = 0;
    while i < n
        invariant
            n == names@.len(),
            n == fields.len(),
            skip + n == tl,
            tl == tag@.len(),
            fields == tag@.subrange(skip as int, tag@.len() as int),
            nm == some_names(names@),
            forall|i: int|
                0 <= i < names@.len() ==> (#[trigger] names@[i] is Some) == contains_refcounted(
                    tag@[skip + i],
                ),
            i <= n,
            r@ == prefix + modify_steps(fields.subrange(0, i as int), nm),
            forall|k: int|
                0 <= k < r@.len() && (#[trigger] r@[k]) is ModifyField ==> r@[k]->ModifyField_0.index
                    < names@.len() && names@[r@[k]->ModifyField_0.index as int] == Some(
                    r@[k]->ModifyField_0.helper,
                ),
        decreases n - i,
    {
        proof {
            let sub = fields.subrange(0, i + 1);
            assert(sub.drop_last() =~= fields.subrange(0, i as int));
            assert(sub[i as int] == tag@[skip + i]);
            assert(names@[i as int] is Some == contains_refcounted(tag@[skip + i]));
        }
        let is_rec = match &tag[skip + i] {
            Layout::RecursivePointer => true,
            _ => false,
        };
        if !is_rec {
            match names[i] {
                Some(h) => {
                    r.push(Step::ModifyField(FieldVisit { index: i as u64, helper: h }));
                },
                None => {},
            }
        }
        proof {
            assert(r@ =~= prefix + modify_steps(fields.subrange(0, i + 1), nm));
        }
        i = i + 1;
    }
    let ghost prefix2 = r@;
    i = 0;
    while i < n
        invariant
            n == fields.len(),
            skip + n == tl,
            tl == tag@.len(),
            fields == tag@.subrange(skip as int, tag@.len() as int),
            i <= n,
            r@ == prefix2 + call_steps(fields.subrange(0, i as int)),
            n == names@.len(),
            forall|k: int|
                0 <= k < r@.len() && (#[trigger] r@[k]) is ModifyField ==> r@[k]->ModifyField_0.index
                    < names@.len() && names@[r@[k]->ModifyField_0.index as int] == Some(
                    r@[k]->ModifyField_0.helper,
                ),
        decreases n - i,
    {
        proof {
            let sub = fields.subrange(0, i + 1);
            assert(sub.drop_last() =~= fields.subrange(0, i as int));
            assert(sub[i as int] == tag@[skip + i]);
        }
        let is_rec = match &tag[skip + i] {
            Layout::RecursivePointer => true,
            _ => false,
        };
        if is_rec {
            r.push(Step::CallSelf { index: i as u64, tail: true });
        }
        proof {
            assert(r@ =~= prefix2 + call_steps(fields.subrange(0, i + 1)));
        }
        i = i + 1;
    }
    r
}

/// Well-formed fields of a non-recursive union's tag are well-formed
/// fields.
proof fn lemma_wf_fields_nonrec(fields: Seq<Layout>, in_loop: bool)
    requires
        wf_fields(fields, in_loop, true),
    ensures
        wf_fields(fields, in_loop, false),
    decreases fields.len(),
{
    if fields.len() > 0 {
        lemma_wf_fields_nonrec(fields.drop_last(), in_loop);
    }
}

/// The names of the refcounted fields of a tag hold among `e`'s ids.
pub open spec fn names_rc_ok(
    fields: Seq<Layout>,
    names: Seq<HelperName>,
    lp: Option<UnionLayout>,
    mode: Mode,
    e: Emitter,
) -> bool {
    forall|i: int|
        0 <= i < fields.len() && contains_refcounted(fields[i]) ==> names_helper(
            #[trigger] names[i],
            fields[i],
            lp,
            mode,
            e.ids(),
        )
}

proof fn lemma_names_rc_kept(
    fields: Seq<Layout>,
    names: Seq<HelperName>,
    lp: Option<UnionLayout>,
    mode: Mode,
    a: Emitter,
    b: Emitter,
)
    requires
        names_rc_ok(fields, names, lp, mode, a),
        a.extends(&b),
    ensures
        names_rc_ok(fields, names, lp, mode, b),
{
    assert forall|i: int| 0 <= i < fields.len() && contains_refcounted(fields[i]) implies names_helper(
        #[trigger] names[i],
        fields[i],
        lp,
        mode,
        b.ids(),
    ) by {
        assert(b.ids()[names[i].id as int] == a.ids()[names[i].id as int]);
    }
}

proof fn lemma_names_rc_agree(
    fields: Seq<Layout>,
    names: Seq<HelperName>,
    lp: Option<UnionLayout>,
    mode: Mode,
    e: Emitter,
)
    requires
        names_rc_ok(fields, names, lp, mode, e),
        e.wf(),
    ensures
        crate::plan::agree_on_refcounted(fields, names, names_for(fields, lp, mode, e.ids())),
{
    assert forall|i: int| 0 <= i < fields.len() && contains_refcounted(fields[i]) implies #[trigger] names[i]
        == names_for(fields, lp, mode, e.ids())[i] by {
        lemma_name_for(names[i], fields[i], lp, mode, e.ids());
    }
}

proof fn lemma_opt_names_rc(
    names: Seq<Option<HelperName>>,
    fields: Seq<Layout>,
    lp: Option<UnionLayout>,
    mode: Mode,
    e: Emitter,
)
    requires
        opt_names_ok(names, fields, lp, mode, e),
    ensures
        names_rc_ok(fields, some_names(names), lp, mode, e),
        forall|i: int| 0 <= i < fields.len() ==> (#[trigger] names[i] is Some) == contains_refcounted(fields[i]),
{
    assert forall|i: int| 0 <= i < fields.len() implies (#[trigger] names[i] is Some) == contains_refcounted(fields[i]) by {
        assert(opt_name_ok(names[i], fields[i], lp, mode, e));
    }
    assert forall|i: int| 0 <= i < fields.len() && contains_refcounted(fields[i]) implies names_helper(
        #[trigger] some_names(names)[i],
        fields[i],
        lp,
        mode,
        e.ids(),
    ) by {
        assert(opt_name_ok(names[i], fields[i], lp, mode, e));
    }
}

/// A helper declared right after the helpers of `s0`, and given its body
/// once its parts were emitted, leaves a module that grows from `s0`.
proof fn lemma_finish(s0: Emitter, s1: Emitter, s2: Emitter, fin: Emitter, name: HelperName, body: HelperBody)
    requires
        s1.helpers@ == s0.helpers@.push(Helper { name, body: HelperBody::Pending }),
        s0.extends(&s1),
        s1.grows_to(&s2),
        fin.helpers@ == s2.helpers@.update(
            s0.helpers@.len() as int,
            Helper { name: s2.helpers@[s0.helpers@.len() as int].name, body },
        ),
        fin.layout_ids == s2.layout_ids,
        fin.decrement_helpers == s2.decrement_helpers,
        fin.ptr_bytes == s2.ptr_bytes,
        fin.leak == s2.leak,
        !(body is Pending),
    ensures
        s0.grows_to(&fin),
        s2.extends(&fin),
        fin.helpers@[s0.helpers@.len() as int].name == name,
        fin.helpers@[s0.helpers@.len() as int].body == body,
        fin.has_name(name),
{
    let idx = s0.helpers@.len() as int;
    assert(s1.helpers@[idx].name == name);
    assert(s2.helpers@[idx].name == name);
    assert(fin.helpers@[idx].name == name);
    assert forall|j: int| 0 <= j < s0.helpers@.len() implies body_kept(
        s0.helpers@[j].body,
        (#[trigger] fin.helpers@[j]).body,
    ) by {
        assert(s1.helpers@[j] == s0.helpers@[j]);
        assert(body_kept(s1.helpers@[j].body, s2.helpers@[j].body));
    }
    assert forall|j: int| s0.helpers@.len() <= j < fin.helpers@.len() implies !((
    #[trigger] fin.helpers@[j]).body is Pending) by {
        if j > idx {
            assert(!(s2.helpers@[j].body is Pending));
        }
    }
    assert forall|j: int| 0 <= j < s0.helpers@.len() implies (#[trigger] fin.helpers@[j]).name
        == s0.helpers@[j].name by {
        assert(s1.helpers@[j] == s0.helpers@[j]);
    }
}

pub(crate) proof fn lemma_grows_refl(e: Emitter)
    ensures
        e.grows_to(&e),
{
}

/// The number of tags of a recursive union.
fn rec_tag_count(u: &UnionLayout) -> (r: usize)
    requires
        union_is_recursive(*u),
    ensures
        r == rec_tags(*u).len(),
{
    match u {
        UnionLayout::Recursive(tags) => tags.len(),
        UnionLayout::NullableWrapped { other_tags, .. } => other_tags.len(),
        _ => 1,
    }
}

/// The fields of tag `t` of a recursive union: those of the returned vector
/// from the returned index on.
fn rec_tag<'b>(u: &'b UnionLayout, t: usize) -> (r: (&'b Vec<Layout>, usize))
    requires
        union_is_recursive(*u),
        t < rec_tags(*u).len(),
        wf_layout(Layout::Union(*u), true),
    ensures
        r.1 <= r.0@.len(),
        r.0@.subrange(r.1 as int, r.0@.len() as int) == rec_tags(*u)[t as int],
        wf_fields(rec_tags(*u)[t as int], true, false),
        decreases_to!(*u => *r.0),
{
    match u {
        UnionLayout::Recursive(tags) | UnionLayout::NonRecursive(tags) => {
            proof {
                assert(decreases_to!(*u => u->Recursive_0));
                assert(decreases_to!(*tags => tags[t as int]));
                lemma_wf_tags(tags@, true, false, t as int);
                assert(tags@[t as int]@.subrange(0, tags@[t as int]@.len() as int) =~= tags@[t as int]@);
            }
            (&tags[t], 0)
        },
        UnionLayout::NullableWrapped { other_tags, .. } => {
            proof {
                assert(decreases_to!(*u => u->other_tags));
                assert(decreases_to!(*other_tags => other_tags[t as int]));
                lemma_wf_tags(other_tags@, true, false, t as int);
                assert(other_tags@[t as int]@.subrange(0, other_tags@[t as int]@.len() as int)
                    =~= other_tags@[t as int]@);
            }
            (&other_tags[t], 0)
        },
        UnionLayout::NonNullableUnwrapped(fields) => {
            proof {
                assert(decreases_to!(*u => u->NonNullableUnwrapped_0));
                assert(fields@.subrange(0, fields@.len() as int) =~= fields@);
            }
            (fields, 0)
        },
        UnionLayout::NullableUnwrapped { other_fields, .. } => {
            proof {
                assert(decreases_to!(*u => u->other_fields));
                lemma_wf_fields_skip(other_fields@, true, false, 1);
            }
            (other_fields, 1)
        },
    }
}

impl Emitter {
    /// The name of the helper of the recursive union whose helper is being
    /// emitted.
    fn rec_union_name(&mut self, u: &UnionLayout, mode: Mode) -> (r: HelperName)
        requires
            old(self).wf(),
            ctx_ok(WhenRecursive::Loop(u), mode, *old(self)),
        ensures
            *final(self) == *old(self),
            names_helper(r, Layout::RecursivePointer, Some(*u), mode, final(self).ids()),
            final(self).has_name(r),
    {
        let ghost s0 = *self;
        let mut key: Vec<u64> = Vec::new();
        encode_rec_key_into(u, &mut key);
        let id = self.layout_ids.get(key);
        proof {
            let id0 = choose|id0: int|
                0 <= id0 < s0.ids().len() && #[trigger] s0.ids()[id0] == rec_key(*u) && s0.has_name(
                    HelperName { mode, kind: HelperKind::RecUnion, id: id0 as u64 },
                );
            assert(s0.ids().contains(key@));
            assert(id as int == id0);
        }
        HelperName { mode, kind: HelperKind::RecUnion, id }
    }

    /// The helper of each field from `skip` on that contains refcounted
    /// data, emitting what is missing.
    fn field_helpers(&mut self, fields: &Vec<Layout>, skip: usize, mode: Mode, ctx: &WhenRecursive) -> (r: Vec<
        Option<HelperName>,
    >)
        requires
            old(self).wf(),
            skip <= fields@.len(),
            wf_fields(
                fields@.subrange(skip as int, fields@.len() as int),
                loop_union(*ctx) is Some,
                false,
            ),
            ctx_ok(*ctx, mode, *old(self)),
        ensures
            final(self).wf(),
            old(self).grows_to(&*final(self)),
            opt_names_ok(
                r@,
                fields@.subrange(skip as int, fields@.len() as int),
                loop_union(*ctx),
                mode,
                *final(self),
            ),
        decreases fields, 0nat,
    {
        let ghost fs = fields@.subrange(skip as int, fields@.len() as int);
        let ghost lp = loop_union(*ctx);
        let mut r: Vec<Option<HelperName>> = Vec::new();
        let mut i: usize = skip;
        proof {
            lemma_grows_refl(*self);
        }
        while i < fields.len()
            invariant
                self.wf(),
                old(self).grows_to(&*self),
                skip <= i <= fields@.len(),
                ctx_ok(*ctx, mode, *self),
                fs == fields@.subrange(skip as int, fields@.len() as int),
                wf_fields(fs, lp is Some, false),
                lp == loop_union(*ctx),
                opt_names_ok(r@, fs.subrange(0, i - skip), lp, mode, *self),
            decreases fields@.len() - i,
        {
            let ghost before = *self;
            let ghost r0 = r@;
            proof {
                assert(decreases_to!(*fields => fields[i as int]));
                lemma_wf_fields(fs, lp is Some, false, i - skip);
                assert(fs[i - skip] == fields@[i as int]);
            }
            let o = if fields[i].contains_refcounted() {
                proof {
                    lemma_refcounted_has_helper(fields@[i as int], lp);
                }
                self.build_function(&fields[i], mode, ctx)
            } else {
                None
            };
            r.push(o);
            proof {
                lemma_names_kept(r0, fs.subrange(0, i - skip), lp, mode, before, *self);
                lemma_grows_trans(*old(self), before, *self);
                lemma_ctx_kept(*ctx, mode, before, *self);
                let sub = fs.subrange(0, i + 1 - skip);
                assert(sub =~= fs.subrange(0, i - skip).push(fields@[i as int]));
                assert(r@ =~= r0.push(o));
                assert forall|k: int| 0 <= k < sub.len() implies opt_name_ok(
                    #[trigger] r@[k],
                    sub[k],
                    lp,
                    mode,
                    *self,
                ) by {
                    if k < sub.len() - 1 {
                        assert(opt_name_ok(r0[k], fs.subrange(0, i - skip)[k], lp, mode, *self));
                    }
                }
            }
            i = i + 1;
        }
        proof {
            assert(fs.subrange(0, fields@.len() - skip) =~= fs);
        }
        r
    }

    /// The helper of a struct with these fields.
    fn build_struct(&mut self, fields: &Vec<Layout>, mode: Mode, ctx: &WhenRecursive) -> (r: HelperName)
        requires
            old(self).wf(),
            wf_fields(fields@, loop_union(*ctx) is Some, false),
            ctx_ok(*ctx, mode, *old(self)),
        ensures
            emitted(*old(self), *final(self), Layout::Struct(*fields), loop_union(*ctx), mode, Some(r)),
        decreases fields, 1nat,
    {
        let ghost s0 = *self;
        let ghost lp = loop_union(*ctx);
        let mut key: Vec<u64> = Vec::new();
        key.push(1);
        encode_seq_into(fields, &mut key);
        assert(key@ =~= enc(Layout::Struct(*fields)));
        let (name, fresh) = self.start(key, HelperKind::Struct, mode);
        if !fresh {
            return name;
        }
        let idx = self.helpers.len() - 1;
        let ghost s1 = *self;
        proof {
            lemma_ctx_kept(*ctx, mode, s0, s1);
            assert(fields@.subrange(0, fields@.len() as int) =~= fields@);
        }
        let names = self.field_helpers(fields, 0, mode, ctx);
        let ghost s2 = *self;
        proof {
            lemma_opt_names_rc(names@, fields@, lp, mode, s2);
        }
        let visits = visits_from(&names, Ghost(fields@));
        proof {
            assert forall|k: int| 0 <= k < visits@.len() implies s2.has_name(
                (#[trigger] visits@[k]).helper,
            ) by {
                assert(opt_name_ok(names@[visits@[k].index as int], fields@[visits@[k].index as int], lp, mode, s2));
            }
        }
        let body = HelperBody::Struct { fields: visits };
        let ghost gbody = body;
        self.finish(idx, body);
        proof {
            lemma_finish(s0, s1, s2, *self, name, gbody);
            lemma_names_rc_kept(fields@, some_names(names@), lp, mode, s2, *self);
            lemma_names_rc_agree(fields@, some_names(names@), lp, mode, *self);
            lemma_filter_visits_agree(fields@, some_names(names@), names_for(fields@, lp, mode, self.ids()));
        }
        name
    }

    /// The helper of a non-recursive union with these tags.
    fn build_union(&mut self, tags: &Vec<Vec<Layout>>, mode: Mode, ctx: &WhenRecursive) -> (r: HelperName)
        requires
            old(self).wf(),
            tags@.len() > 0,
            wf_tags(tags@, loop_union(*ctx) is Some, true),
            ctx_ok(*ctx, mode, *old(self)),
        ensures
            emitted(
                *old(self),
                *final(self),
                Layout::Union(UnionLayout::NonRecursive(*tags)),
                loop_union(*ctx),
                mode,
                Some(r),
            ),
        decreases tags, 1nat,
    {
        let ghost s0 = *self;
        let ghost lp = loop_union(*ctx);
        let ghost tv = tags_view(tags@);
        let mut key: Vec<u64> = Vec::new();
        key.push(2);
        key.push(0);
        encode_tags_into(tags, &mut key);
        assert(crate::encode::enc_union(UnionLayout::NonRecursive(*tags)) == seq![0u64]
            + crate::encode::enc_tags(tags@));
        assert(key@ =~= enc(Layout::Union(UnionLayout::NonRecursive(*tags))));
        let (name, fresh) = self.start(key, HelperKind::Union, mode);
        if !fresh {
            return name;
        }
        let idx = self.helpers.len() - 1;
        let ghost s1 = *self;
        proof {
            lemma_ctx_kept(*ctx, mode, s0, s1);
            lemma_grows_refl(s1);
        }
        let mut cases: Vec<UnionCase> = Vec::new();
        let ghost mut table: Seq<Seq<HelperName>> = Seq::empty();
        let mut t: usize = 0;
        while t < tags.len()
            invariant
                self.wf(),
                s1.grows_to(&*self),
                ctx_ok(*ctx, mode, *self),
                t <= tags@.len(),
                lp == loop_union(*ctx),
                wf_tags(tags@, lp is Some, true),
                tv == tags_view(tags@),
                table.len() == t,
                forall|k: int| 0 <= k < t ==> names_rc_ok(tv[k], #[trigger] table[k], lp, mode, *self),
                union_cases_view(cases@) == union_cases(tv.subrange(0, t as int), table),
                forall|c: int, i: int|
                    0 <= c < cases@.len() && 0 <= i < cases@[c].fields@.len() ==> self.has_name(
                        (#[trigger] cases@[c].fields@[i]).helper,
                    ),
            decreases tags@.len() - t,
        {
            let ghost before = *self;
            let ghost table0 = table;
            let ghost cases0 = cases@;
            proof {
                assert(decreases_to!(*tags => tags[t as int]));
                lemma_wf_tags(tags@, lp is Some, true, t as int);
                lemma_wf_fields_nonrec(tags@[t as int]@, lp is Some);
                assert(tags@[t as int]@.subrange(0, tags@[t as int]@.len() as int) =~= tags@[t as int]@);
                assert(tv[t as int] == tags@[t as int]@);
            }
            let names = self.field_helpers(&tags[t], 0, mode, ctx);
            proof {
                lemma_opt_names_rc(names@, tags@[t as int]@, lp, mode, *self);
            }
            let has = fields_contain_refcounted(&tags[t]);
            if has {
                let visits = visits_from(&names, Ghost(tags@[t as int]@));
                proof {
                    assert(tags@[t as int]@.subrange(0, tags@[t as int]@.len() as int) =~= tags@[t as int]@);
                    assert forall|k: int| 0 <= k < visits@.len() implies self.has_name(
                        (#[trigger] visits@[k]).helper,
                    ) by {
                        assert(opt_name_ok(
                            names@[visits@[k].index as int],
                            tags@[t as int]@[visits@[k].index as int],
                            lp,
                            mode,
                            *self,
                        ));
                    }
                }
                cases.push(UnionCase { tag: t as u64, fields: visits });
            }
            proof {
                assert forall|c: int, i: int|
                    0 <= c < cases@.len() && 0 <= i < cases@[c].fields@.len() implies self.has_name(
                    (#[trigger] cases@[c].fields@[i]).helper,
                ) by {
                    if c < cases0.len() {
                        assert(cases@[c] == cases0[c]);
                        assert(before.has_name(cases0[c].fields@[i].helper));
                        lemma_has_name_kept(before, *self, cases0[c].fields@[i].helper);
                    }
                }
                table = table0.push(some_names(names@));
                assert forall|k: int| 0 <= k < t + 1 implies names_rc_ok(
                    tv[k],
                    #[trigger] table[k],
                    lp,
                    mode,
                    *self,
                ) by {
                    if k < t {
                        lemma_names_rc_kept(tv[k], table0[k], lp, mode, before, *self);
                    }
                }
                lemma_grows_trans(s1, before, *self);
                lemma_ctx_kept(*ctx, mode, before, *self);
                let sub = tv.subrange(0, t + 1);
                assert(sub.drop_last() =~= tv.subrange(0, t as int));
                assert forall|k: int| 0 <= k < sub.drop_last().len() implies crate::plan::agree_on_refcounted(
                    sub.drop_last()[k],
                    #[trigger] table0[k],
                    table[k],
                ) by {}
                lemma_cases_agree(sub.drop_last(), table0, table);
                assert(union_cases_view(cases@) =~= union_cases(sub, table));
            }
            t = t + 1;
        }
        let ghost s2 = *self;
        let body = HelperBody::Union { cases };
        let ghost gbody = body;
        self.finish(idx, body);
        proof {
            lemma_finish(s0, s1, s2, *self, name, gbody);
            assert(tv.subrange(0, tv.len() as int) =~= tv);
            let nt = names_table(tv, lp, mode, self.ids());
            assert forall|k: int| 0 <= k < tv.len() implies crate::plan::agree_on_refcounted(
                tv[k],
                #[trigger] table[k],
                nt[k],
            ) by {
                lemma_names_rc_kept(tv[k], table[k], lp, mode, s2, *self);
                lemma_names_rc_agree(tv[k], table[k], lp, mode, *self);
            }
            lemma_cases_agree(tv, table, nt);
        }
        name
    }
}

/// A field helper name kept in a grown module is the name the module gives.
proof fn lemma_opt_name(
    o: Option<HelperName>,
    c: Layout,
    lp: Option<UnionLayout>,
    mode: Mode,
    a: Emitter,
    b: Emitter,
)
    requires
        opt_name_ok(o, c, lp, mode, a),
        a.extends(&b),
        b.wf(),
    ensures
        o == name_if_refcounted(c, lp, mode, b.ids()),
        opt_name_ok(o, c, lp, mode, b),
{
    if o is Some {
        let n = o->Some_0;
        assert(b.ids()[n.id as int] == a.ids()[n.id as int]);
        lemma_name_for(n, c, lp, mode, b.ids());
        lemma_has_name_kept(a, b, n);
    }
}

/// Whether some entry names a helper.
fn any_named(names: &Vec<Option<HelperName>>) -> (r: bool)
    ensures
        r == exists|i: int| 0 <= i < names@.len() && (#[trigger] names@[i]) is Some,
{
    let mut i: usize = 0;
    while i < names.len()
        invariant
            i <= names@.len(),
            forall|k: int| 0 <= k < i ==> !((#[trigger] names@[k]) is Some),
        decreases names@.len() - i,
    {
        if names[i].is_some() {
            assert(names@[i as int] is Some);
            return true;
        }
        i = i + 1;
    }
    false
}

impl Emitter {
    /// The helper of `c` where it contains refcounted data.
    fn child_helper(&mut self, c: &Layout, mode: Mode, ctx: &WhenRecursive) -> (r: Option<HelperName>)
        requires
            old(self).wf(),
            wf_layout(*c, loop_union(*ctx) is Some),
            ctx_ok(*ctx, mode, *old(self)),
        ensures
            final(self).wf(),
            old(self).grows_to(&*final(self)),
            opt_name_ok(r, *c, loop_union(*ctx), mode, *final(self)),
        decreases c, 3nat,
    {
        if c.contains_refcounted() {
            proof {
                lemma_refcounted_has_helper(*c, loop_union(*ctx));
            }
            self.build_function(c, mode, ctx)
        } else {
            proof {
                lemma_grows_refl(*self);
            }
            None
        }
    }

    /// The helper of a builtin layout `l`, where it has one.
    fn build_builtin(&mut self, l: &Layout, b: &Builtin, mode: Mode, ctx: &WhenRecursive) -> (r: Option<
        HelperName,
    >)
        requires
            old(self).wf(),
            *l == Layout::Builtin(*b),
            wf_layout(*l, loop_union(*ctx) is Some),
            ctx_ok(*ctx, mode, *old(self)),
        ensures
            emitted(*old(self), *final(self), *l, loop_union(*ctx), mode, r),
        decreases l, 1nat,
    {
        let ghost s0 = *self;
        let ghost lp = loop_union(*ctx);
        let kind = match b {
            Builtin::List(MemoryMode::Refcounted, _) => HelperKind::List,
            Builtin::Str => HelperKind::Str,
            Builtin::Dict(_, _) | Builtin::SetOf(_) => HelperKind::Dict,
            _ => {
                proof {
                    lemma_grows_refl(s0);
                }
                return None;
            },
        };
        let mut key: Vec<u64> = Vec::new();
        encode_into(l, &mut key);
        let (name, fresh) = self.start(key, kind, mode);
        if !fresh {
            return Some(name);
        }
        let idx = self.helpers.len() - 1;
        let ghost s1 = *self;
        proof {
            lemma_ctx_kept(*ctx, mode, s0, s1);
            assert(decreases_to!(*l => l->Builtin_0));
        }
        let body = match b {
            Builtin::List(_, e) => {
                proof {
                    assert(decreases_to!(*b => b->List_1));
                }
                let element = self.child_helper(e, mode, ctx);
                proof {
                    lemma_opt_name(element, **e, lp, mode, *self, *self);
                }
                HelperBody::List { element }
            },
            Builtin::Dict(k, v) => {
                proof {
                    assert(decreases_to!(*b => b->Dict_0));
                    assert(decreases_to!(*b => b->Dict_1));
                }
                let ghost s_a = *self;
                let key = self.child_helper(k, mode, ctx);
                let ghost s_b = *self;
                proof {
                    lemma_ctx_kept(*ctx, mode, s_a, s_b);
                }
                let value = self.child_helper(v, mode, ctx);
                proof {
                    lemma_grows_trans(s_a, s_b, *self);
                    lemma_opt_name(key, **k, lp, mode, s_b, *self);
                    lemma_opt_name(value, **v, lp, mode, *self, *self);
                }
                HelperBody::Dict { key, value }
            },
            Builtin::SetOf(e) => {
                proof {
                    assert(decreases_to!(*b => b->SetOf_0));
                }
                let value = self.child_helper(e, mode, ctx);
                proof {
                    lemma_opt_name(value, **e, lp, mode, *self, *self);
                }
                HelperBody::Dict { key: None, value }
            },
            _ => {
                proof {
                    lemma_grows_refl(*self);
                }
                HelperBody::Str
            },
        };
        let ghost s_c = *self;
        if mode == Mode::Dec {
            self.require_decrement_helper();
        }
        let ghost s2 = *self;
        proof {
            lemma_grows_trans(s1, s_c, s2);
        }
        let ghost gbody = body;
        self.finish(idx, body);
        proof {
            lemma_finish(s0, s1, s2, *self, name, gbody);
        }
        Some(name)
    }
}

impl Emitter {
    /// The helper of a closure layout `l`: that of the struct it is lowered
    /// to, a function pointer and the captured data.
    fn build_closure(&mut self, l: &Layout, mode: Mode, ctx: &WhenRecursive) -> (r: Option<HelperName>)
        requires
            old(self).wf(),
            l is Closure,
            wf_layout(*l, loop_union(*ctx) is Some),
            ctx_ok(*ctx, mode, *old(self)),
        ensures
            emitted(*old(self), *final(self), *l, loop_union(*ctx), mode, r),
        decreases l, 1nat,
    {
        let ghost s0 = *self;
        let ghost lp = loop_union(*ctx);
        match l {
            Layout::Closure(_, captured, _) => {
                if !captured.contains_refcounted() {
                    proof {
                        lemma_grows_refl(s0);
                    }
                    return None;
                }
                let mut key: Vec<u64> = Vec::new();
                encode_into(l, &mut key);
                let (name, fresh) = self.start(key, HelperKind::Struct, mode);
                if !fresh {
                    return Some(name);
                }
                let idx = self.helpers.len() - 1;
                let ghost s1 = *self;
                proof {
                    lemma_ctx_kept(*ctx, mode, s0, s1);
                    assert(decreases_to!(*l => l->Closure_1));
                }
                let child = self.child_helper(captured, mode, ctx);
                let ghost s2 = *self;
                proof {
                    lemma_opt_name(child, **captured, lp, mode, s2, s2);
                }
                let helper = match child {
                    Some(h) => h,
                    None => name,
                };
                let mut visits: Vec<FieldVisit> = Vec::new();
                visits.push(FieldVisit { index: 1, helper });
                let body = HelperBody::Struct { fields: visits };
                let ghost gbody = body;
                self.finish(idx, body);
                proof {
                    lemma_finish(s0, s1, s2, *self, name, gbody);
                    assert(visits@ =~= seq![FieldVisit { index: 1, helper: name_for(**captured, lp, mode, self.ids()) }]);
                }
                Some(name)
            },
            _ => {
                proof {
                    lemma_grows_refl(s0);
                }
                None
            },
        }
    }

    /// The helper of the recursive union `u`; recursive pointers in its tags
    /// refer to `u`.
    fn build_rec_union(&mut self, u: &UnionLayout, mode: Mode, Ghost(lp): Ghost<Option<UnionLayout>>) -> (r: HelperName)
        requires
            old(self).wf(),
            union_is_recursive(*u),
            wf_layout(Layout::Union(*u), true),
        ensures
            emitted(*old(self), *final(self), Layout::Union(*u), lp, mode, Some(r)),
        decreases u, 1nat,
    {
        let ghost s0 = *self;
        let mut key: Vec<u64> = Vec::new();
        encode_rec_key_into(u, &mut key);
        let (name, fresh) = self.start(key, HelperKind::RecUnion, mode);
        if !fresh {
            return name;
        }
        let idx = self.helpers.len() - 1;
        let ghost s1 = *self;
        let inner = WhenRecursive::Loop(u);
        let ghost lu = Some(*u);
        proof {
            assert(s1.ids()[name.id as int] == rec_key(*u));
            assert(ctx_ok(inner, mode, s1));
            lemma_grows_refl(s1);
        }
        let n_tags = rec_tag_count(u);
        let ghost tv = rec_tags(*u);
        let mut cases: Vec<RecCase> = Vec::new();
        let mut all_rc = true;
        let ghost mut table: Seq<Seq<HelperName>> = Seq::empty();
        let mut t: usize = 0;
        while t < n_tags
            invariant
                self.wf(),
                s1.grows_to(&*self),
                ctx_ok(inner, mode, *self),
                inner == WhenRecursive::Loop(u),
                lu == Some(*u),
                loop_union(inner) == lu,
                union_is_recursive(*u),
                wf_layout(Layout::Union(*u), true),
                t <= n_tags,
                n_tags == tv.len(),
                tv == rec_tags(*u),
                table.len() == t,
                forall|k: int| 0 <= k < t ==> names_rc_ok(tv[k], #[trigger] table[k], lu, mode, *self),
                rec_cases_view(cases@) == rec_cases(tv.subrange(0, t as int), table),
                all_rc == all_tags_refcounted(tv.subrange(0, t as int)),
                forall|c: int, k: int|
                    0 <= c < cases@.len() && 0 <= k < cases@[c].steps@.len() && (
                    #[trigger] cases@[c].steps@[k]) is ModifyField ==> self.has_name(
                        cases@[c].steps@[k]->ModifyField_0.helper,
                    ),
            decreases n_tags - t,
        {
            let ghost before = *self;
            let ghost table0 = table;
            let ghost cases0 = cases@;
            let (tag, skip) = rec_tag(u, t);
            let ghost fs = tag@.subrange(skip as int, tag@.len() as int);
            let names = self.field_helpers(tag, skip, mode, &inner);
            proof {
                lemma_opt_names_rc(names@, fs, lu, mode, *self);
                crate::layout::lemma_any_contains_refcounted(fs);
            }
            let has = any_named(&names);
            proof {
                if has {
                    let i = choose|i: int| 0 <= i < names@.len() && (#[trigger] names@[i]) is Some;
                    assert(crate::layout::contains_refcounted(fs[i]));
                }
                if crate::layout::any_contains_refcounted(fs) {
                    let i = choose|i: int| 0 <= i < fs.len() && #[trigger] contains_refcounted(fs[i]);
                    assert(names@[i] is Some);
                }
                assert(has == crate::layout::any_contains_refcounted(fs));
            }
            if has {
                let steps = rec_steps(tag, skip, &names);
                proof {
                    assert forall|k: int|
                        0 <= k < steps@.len() && (#[trigger] steps@[k]) is ModifyField implies self.has_name(
                        steps@[k]->ModifyField_0.helper,
                    ) by {
                        let j = steps@[k]->ModifyField_0.index as int;
                        assert(opt_name_ok(names@[j], fs[j], lu, mode, *self));
                    }
                }
                cases.push(RecCase { tag: t as u64, steps });
            } else {
                all_rc = false;
            }
            proof {
                assert forall|c: int, k: int|
                    0 <= c < cases@.len() && 0 <= k < cases@[c].steps@.len() && (
                    #[trigger] cases@[c].steps@[k]) is ModifyField implies self.has_name(
                    cases@[c].steps@[k]->ModifyField_0.helper,
                ) by {
                    if c < cases0.len() {
                        assert(cases@[c] == cases0[c]);
                        assert(before.has_name(cases0[c].steps@[k]->ModifyField_0.helper));
                        lemma_has_name_kept(before, *self, cases0[c].steps@[k]->ModifyField_0.helper);
                    }
                }
                table = table0.push(some_names(names@));
                assert forall|k: int| 0 <= k < t + 1 implies names_rc_ok(
                    tv[k],
                    #[trigger] table[k],
                    lu,
                    mode,
                    *self,
                ) by {
                    if k < t {
                        lemma_names_rc_kept(tv[k], table0[k], lu, mode, before, *self);
                    }
                }
                lemma_grows_trans(s1, before, *self);
                lemma_ctx_kept(inner, mode, before, *self);
                let sub = tv.subrange(0, t + 1);
                assert(sub.drop_last() =~= tv.subrange(0, t as int));
                assert forall|k: int| 0 <= k < sub.drop_last().len() implies crate::plan::agree_on_refcounted(
                    sub.drop_last()[k],
                    #[trigger] table0[k],
                    table[k],
                ) by {}
                lemma_cases_agree(sub.drop_last(), table0, table);
                assert(rec_cases_view(cases@) =~= rec_cases(sub, table));
                assert(all_rc == all_tags_refcounted(sub)) by {
                    if all_rc {
                        assert forall|k: int| 0 <= k < sub.len() implies #[trigger] crate::layout::any_contains_refcounted(sub[k]) by {
                            if k < t {
                                assert(sub[k] == tv.subrange(0, t as int)[k]);
                            }
                        }
                    } else if all_tags_refcounted(sub) {
                        assert forall|k: int| 0 <= k < t implies #[trigger] crate::layout::any_contains_refcounted(tv.subrange(0, t as int)[k]) by {
                            assert(sub[k] == tv.subrange(0, t as int)[k]);
                        }
                        assert(crate::layout::any_contains_refcounted(sub[t as int]));
                    }
                }
            }
            t = t + 1;
        }
        let switch = !(cases.len() == 1 && all_rc);
        let null_check = match u {
            UnionLayout::Recursive(_) => false,
            _ => true,
        };
        let ghost s_c = *self;
        if mode == Mode::Dec {
            self.require_decrement_helper();
        }
        let ghost s2 = *self;
        proof {
            lemma_grows_trans(s1, s_c, s2);
            assert(tv.subrange(0, tv.len() as int) =~= tv);
        }
        let body = HelperBody::RecUnion { null_check, switch, cases };
        let ghost gbody = body;
        self.finish(idx, body);
        proof {
            lemma_finish(s0, s1, s2, *self, name, gbody);
            let nt = names_table(tv, lu, mode, self.ids());
            assert forall|k: int| 0 <= k < tv.len() implies crate::plan::agree_on_refcounted(
                tv[k],
                #[trigger] table[k],
                nt[k],
            ) by {
                lemma_names_rc_kept(tv[k], table[k], lu, mode, s2, *self);
                lemma_names_rc_agree(tv[k], table[k], lu, mode, *self);
            }
            lemma_cases_agree(tv, table, nt);
        }
        name
    }

    /// The helper of `l`, where it has one, emitting it and the helpers it
    /// calls on first request.
    pub(crate) fn build_function(&mut self, l: &Layout, mode: Mode, ctx: &WhenRecursive) -> (r: Option<HelperName>)
        requires
            old(self).wf(),
            wf_layout(*l, loop_union(*ctx) is Some),
            ctx_ok(*ctx, mode, *old(self)),
        ensures
            emitted(*old(self), *final(self), *l, loop_union(*ctx), mode, r),
        decreases l, 2nat,
    {
        let ghost s0 = *self;
        match l {
            Layout::Builtin(b) => self.build_builtin(l, b, mode, ctx),
            Layout::Struct(fields) => {
                proof {
                    assert(decreases_to!(*l => l->Struct_0));
                }
                Some(self.build_struct(fields, mode, ctx))
            },
            Layout::Union(u) => {
                proof {
                    assert(decreases_to!(*l => l->Union_0));
                }
                match u {
                    UnionLayout::NonRecursive(tags) => {
                        proof {
                            let ghost un = l->Union_0;
                            assert(decreases_to!(un => un->NonRecursive_0));
                        }
                        Some(self.build_union(tags, mode, ctx))
                    },
                    _ => Some(self.build_rec_union(u, mode, Ghost(loop_union(*ctx)))),
                }
            },
            Layout::Closure(_, _, _) => self.build_closure(l, mode, ctx),
            Layout::RecursivePointer => match ctx {
                WhenRecursive::Loop(u) => {
                    let n = self.rec_union_name(u, mode);
                    proof {
                        lemma_grows_refl(s0);
                    }
                    Some(n)
                },
                WhenRecursive::Unreachable => None,
            },
            _ => {
                proof {
                    lemma_grows_refl(s0);
                }
                None
            },
        }
    }
}

} // verus!
