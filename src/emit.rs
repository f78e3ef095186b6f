//! The emitter: for each layout it is asked about, it returns the helper to
//! call, emitting that helper (and the helpers it calls) on first request
//! and reusing it afterwards.
use vstd::prelude::*;
use crate::builders::lemma_grows_refl;
use crate::helper::{
    build_decrement_helper, free_at_spec, DecrementHelper, FieldVisit, Helper, HelperBody,
    HelperKind, HelperName, Mode, RecCase, Step, UnionCase,
};
use crate::ids::{distinct_keys, LayoutIds};
use crate::layout::{contains_refcounted, union_is_recursive, wf_layout, Builtin, Layout, UnionLayout};
use crate::plan::{
    all_tags_refcounted, filter_visits, helper_kind, lemma_name_for, lemma_refcounted_has_helper,
    name_for, name_if_refcounted, names_for, names_helper, names_table, rec_cases, rec_key,
    rec_tags, union_cases,
};
use crate::refcount::valid_ptr_bytes;

verus! {

/// What a recursive pointer met during emission refers to.
pub enum WhenRecursive<'a> {
    /// No enclosing recursive union: a recursive pointer cannot occur here.
    Unreachable,
    /// The helper of this recursive union is being emitted.
    Loop(&'a UnionLayout),
}

pub open spec fn loop_union(ctx: WhenRecursive) -> Option<UnionLayout> {
    match ctx {
        WhenRecursive::Unreachable => None,
        WhenRecursive::Loop(u) => Some(*u),
    }
}

/// `b` keeps every key of `a` at its index.
pub open spec fn ids_extend(a: Seq<Seq<u64>>, b: Seq<Seq<u64>>) -> bool {
    &&& a.len() <= b.len()
    &&& forall|i: int| 0 <= i < a.len() ==> #[trigger] b[i] == a[i]
}

pub open spec fn union_cases_view(cases: Seq<UnionCase>) -> Seq<(u64, Seq<FieldVisit>)> {
    cases.map_values(|c: UnionCase| (c.tag, c.fields@))
}

pub open spec fn rec_cases_view(cases: Seq<RecCase>) -> Seq<(u64, Seq<Step>)> {
    cases.map_values(|c: RecCase| (c.tag, c.steps@))
}

pub open spec fn tags_view(tags: Seq<Vec<Layout>>) -> Seq<Seq<Layout>> {
    tags.map_values(|t: Vec<Layout>| t@)
}

/// The body that the helper of `l` must have, with the helpers of its
/// parts named among `ids`.
pub open spec fn body_ok(
    body: HelperBody,
    l: Layout,
    lp: Option<UnionLayout>,
    mode: Mode,
    ids: Seq<Seq<u64>>,
) -> bool {
    match l {
        Layout::Builtin(b) => match b {
            Builtin::List(_, e) => body == HelperBody::List {
                element: name_if_refcounted(*e, lp, mode, ids),
            },
            Builtin::Str => body == HelperBody::Str,
            Builtin::Dict(k, v) => body == HelperBody::Dict {
                key: name_if_refcounted(*k, lp, mode, ids),
                value: name_if_refcounted(*v, lp, mode, ids),
            },
            Builtin::SetOf(e) => body == HelperBody::Dict {
                key: None,
                value: name_if_refcounted(*e, lp, mode, ids),
            },
            _ => true,
        },
        Layout::Struct(fields) => match body {
            HelperBody::Struct { fields: visits } => visits@ == filter_visits(
                fields@,
                names_for(fields@, lp, mode, ids),
            ),
            _ => false,
        },
        Layout::Union(u) => match u {
            UnionLayout::NonRecursive(tags) => match body {
                HelperBody::Union { cases } => union_cases_view(cases@) == union_cases(
                    tags_view(tags@),
                    names_table(tags_view(tags@), lp, mode, ids),
                ),
                _ => false,
            },
            _ => match body {
                HelperBody::RecUnion { null_check, switch, cases } => {
                    let expected = rec_cases(
                        rec_tags(u),
                        names_table(rec_tags(u), Some(u), mode, ids),
                    );
                    &&& null_check == !(u is Recursive)
                    &&& switch == !(expected.len() == 1 && all_tags_refcounted(rec_tags(u)))
                    &&& rec_cases_view(cases@) == expected
                },
                _ => false,
            },
        },
        Layout::Closure(_, captured, _) => match body {
            HelperBody::Struct { fields: visits } => visits@ == seq![
                FieldVisit { index: 1, helper: name_for(*captured, lp, mode, ids) },
            ],
            _ => false,
        },
        _ => true,
    }
}

/// Whether a helper's family holds its own heap cell.
pub open spec fn touches_cell(kind: HelperKind) -> bool {
    kind == HelperKind::List || kind == HelperKind::Str || kind == HelperKind::Dict || kind
        == HelperKind::RecUnion
}

/// An emitted decrement helper that decrements a cell calls the shared
/// decrement helper.
pub open spec fn needs_decrement_helper(h: Helper) -> bool {
    h.name.mode == Mode::Dec && touches_cell(h.name.kind) && !(h.body is Pending)
}

/// Every helper that `body` calls, other than itself, is in the module.
pub open spec fn body_refs_ok(body: HelperBody, e: Emitter) -> bool {
    match body {
        HelperBody::List { element } => element is Some ==> e.has_name(element->Some_0),
        HelperBody::Dict { key, value } => {
            &&& key is Some ==> e.has_name(key->Some_0)
            &&& value is Some ==> e.has_name(value->Some_0)
        },
        HelperBody::Struct { fields } => forall|i: int|
            0 <= i < fields@.len() ==> e.has_name((#[trigger] fields@[i]).helper),
        HelperBody::Union { cases } => forall|c: int, i: int|
            0 <= c < cases@.len() && 0 <= i < cases@[c].fields@.len() ==> e.has_name(
                (#[trigger] cases@[c].fields@[i]).helper,
            ),
        HelperBody::RecUnion { cases, .. } => forall|c: int, k: int|
            0 <= c < cases@.len() && 0 <= k < cases@[c].steps@.len() && (
            #[trigger] cases@[c].steps@[k]) is ModifyField ==> e.has_name(
                cases@[c].steps@[k]->ModifyField_0.helper,
            ),
        _ => true,
    }
}

/// A pending body stays pending; any other body stays as it is.
pub open spec fn body_kept(old_body: HelperBody, new_body: HelperBody) -> bool {
    if old_body is Pending {
        new_body is Pending
    } else {
        new_body == old_body
    }
}

/// The state of emission: the interned layout ids, the helpers emitted so
/// far, and the shared decrement helpers.
pub struct Emitter {
    /// The target's pointer width in bytes.
    pub ptr_bytes: u32,
    /// Whether decrement helpers leave out the free.
    pub leak: bool,
    pub layout_ids: LayoutIds,
    pub helpers: Vec<Helper>,
    pub decrement_helpers: Vec<DecrementHelper>,
}

impl Emitter {
    pub open spec fn ids(&self) -> Seq<Seq<u64>> {
        self.layout_ids@
    }

    /// A helper named `n` is in the module.
    pub open spec fn has_name(&self, n: HelperName) -> bool {
        exists|j: int| 0 <= j < self.helpers@.len() && (#[trigger] self.helpers@[j]).name == n
    }

    /// The shared decrement helper for `alignment` is in the module.
    pub open spec fn has_decrement_helper(&self, alignment: u32) -> bool {
        exists|k: int|
            0 <= k < self.decrement_helpers@.len() && (#[trigger] self.decrement_helpers@[k]).alignment
                == alignment
    }

    /// Every helper of the module has its body.
    pub open spec fn no_pending(&self) -> bool {
        forall|j: int| 0 <= j < self.helpers@.len() ==> !((#[trigger] self.helpers@[j]).body is Pending)
    }

    pub open spec fn wf(&self) -> bool {
        &&& valid_ptr_bytes(self.ptr_bytes)
        &&& self.layout_ids.wf()
        &&& forall|i: int, j: int|
            0 <= i < self.helpers@.len() && 0 <= j < self.helpers@.len() && i != j
                ==> (#[trigger] self.helpers@[i]).name != (#[trigger] self.helpers@[j]).name
        &&& forall|j: int|
            0 <= j < self.helpers@.len() ==> (#[trigger] self.helpers@[j]).name.id < self.ids().len()
        &&& forall|k: int|
            0 <= k < self.decrement_helpers@.len() ==> {
                let d = #[trigger] self.decrement_helpers@[k];
                &&& d.alignment == self.ptr_bytes || d.alignment == 2 * self.ptr_bytes
                &&& d.free_at == free_at_spec(d.alignment, self.ptr_bytes, self.leak)
            }
        &&& forall|i: int, k: int|
            0 <= i < self.decrement_helpers@.len() && 0 <= k < self.decrement_helpers@.len() && i
                != k ==> (#[trigger] self.decrement_helpers@[i]).alignment != (
            #[trigger] self.decrement_helpers@[k]).alignment
        &&& forall|j: int|
            0 <= j < self.helpers@.len() && needs_decrement_helper(#[trigger] self.helpers@[j])
                ==> self.has_decrement_helper(self.ptr_bytes)
        &&& forall|j: int|
            0 <= j < self.helpers@.len() ==> body_refs_ok((#[trigger] self.helpers@[j]).body, *self)
    }

    /// `new` keeps the ids, the helper names and the decrement helpers of
    /// `self`.
    pub open spec fn extends(&self, new: &Emitter) -> bool {
        &&& new.ptr_bytes == self.ptr_bytes
        &&& new.leak == self.leak
        &&& ids_extend(self.ids(), new.ids())
        &&& self.helpers@.len() <= new.helpers@.len()
        &&& forall|j: int|
            0 <= j < self.helpers@.len() ==> (#[trigger] new.helpers@[j]).name == self.helpers@[j].name
        &&& self.decrement_helpers@.len() <= new.decrement_helpers@.len()
        &&& forall|k: int|
            0 <= k < self.decrement_helpers@.len() ==> #[trigger] new.decrement_helpers@[k]
                == self.decrement_helpers@[k]
    }

    /// `new` extends `self`, keeps every emitted body, and every helper it
    /// adds has its body.
    pub open spec fn grows_to(&self, new: &Emitter) -> bool {
        &&& self.extends(new)
        &&& forall|j: int|
            0 <= j < self.helpers@.len() ==> body_kept(
                self.helpers@[j].body,
                (#[trigger] new.helpers@[j]).body,
            )
        &&& forall|j: int|
            self.helpers@.len() <= j < new.helpers@.len() ==> !((
            #[trigger] new.helpers@[j]).body is Pending)
    }
}

/// Where a recursive pointer may occur, the helper of its union is declared.
pub open spec fn ctx_ok(ctx: WhenRecursive, mode: Mode, e: Emitter) -> bool {
    match ctx {
        WhenRecursive::Unreachable => true,
        WhenRecursive::Loop(u) => {
            &&& union_is_recursive(*u)
            &&& wf_layout(Layout::Union(*u), true)
            &&& exists|id: int|
                0 <= id < e.ids().len() && #[trigger] e.ids()[id] == rec_key(*u) && e.has_name(
                    HelperName { mode, kind: HelperKind::RecUnion, id: id as u64 },
                )
        },
    }
}

/// What one request for the helper of `l` leaves behind: `r` names the
/// helper where `l` has one; a helper already in the module is reused and
/// nothing changes; a new one stands at the first new index with its body.
pub open spec fn emitted(
    old: Emitter,
    new: Emitter,
    l: Layout,
    lp: Option<UnionLayout>,
    mode: Mode,
    r: Option<HelperName>,
) -> bool {
    &&& new.wf()
    &&& old.grows_to(&new)
    &&& r is Some <==> helper_kind(l, lp) is Some
    &&& match r {
        None => new == old,
        Some(n) => {
            &&& names_helper(n, l, lp, mode, new.ids())
            &&& new.has_name(n)
            &&& old.has_name(n) ==> new == old
            &&& !old.has_name(n) ==> {
                &&& old.helpers@.len() < new.helpers@.len()
                &&& new.helpers@[old.helpers@.len() as int].name == n
                &&& body_ok(new.helpers@[old.helpers@.len() as int].body, l, lp, mode, new.ids())
            }
        },
    }
}

/// The helper name of a field, where it contains refcounted data.
pub open spec fn opt_name_ok(
    o: Option<HelperName>,
    l: Layout,
    lp: Option<UnionLayout>,
    mode: Mode,
    e: Emitter,
) -> bool {
    match o {
        None => !contains_refcounted(l),
        Some(n) => contains_refcounted(l) && names_helper(n, l, lp, mode, e.ids()) && e.has_name(n),
    }
}

pub open spec fn opt_names_ok(
    names: Seq<Option<HelperName>>,
    fields: Seq<Layout>,
    lp: Option<UnionLayout>,
    mode: Mode,
    e: Emitter,
) -> bool {
    &&& names.len() == fields.len()
    &&& forall|i: int| 0 <= i < fields.len() ==> opt_name_ok(#[trigger] names[i], fields[i], lp, mode, e)
}

/// The names of a field-helper sequence, any name where there is none.
pub open spec fn some_names(names: Seq<Option<HelperName>>) -> Seq<HelperName> {
    Seq::new(names.len(), |i: int| names[i]->Some_0)
}

pub(crate) proof fn lemma_grows_trans(a: Emitter, b: Emitter, c: Emitter)
    requires
        a.grows_to(&b),
        b.grows_to(&c),
    ensures
        a.grows_to(&c),
{
    assert forall|j: int| 0 <= j < a.helpers@.len() implies body_kept(
        a.helpers@[j].body,
        (#[trigger] c.helpers@[j]).body,
    ) by {
        assert(body_kept(a.helpers@[j].body, b.helpers@[j].body));
        assert(body_kept(b.helpers@[j].body, c.helpers@[j].body));
    }
    assert forall|j: int| a.helpers@.len() <= j < c.helpers@.len() implies !((
    #[trigger] c.helpers@[j]).body is Pending) by {
        if j < b.helpers@.len() {
            assert(!(b.helpers@[j].body is Pending));
            assert(body_kept(b.helpers@[j].body, c.helpers@[j].body));
        }
    }
}

pub(crate) proof fn lemma_has_name_kept(a: Emitter, b: Emitter, n: HelperName)
    requires
        a.extends(&b),
        a.has_name(n),
    ensures
        b.has_name(n),
{
    let j = choose|j: int| 0 <= j < a.helpers@.len() && (#[trigger] a.helpers@[j]).name == n;
    assert(b.helpers@[j].name == n);
}

pub(crate) proof fn lemma_refs_kept(body: HelperBody, a: Emitter, b: Emitter)
    requires
        body_refs_ok(body, a),
        a.extends(&b),
    ensures
        body_refs_ok(body, b),
{
    match body {
        HelperBody::List { element } => {
            if element is Some {
                lemma_has_name_kept(a, b, element->Some_0);
            }
        },
        HelperBody::Dict { key, value } => {
            if key is Some {
                lemma_has_name_kept(a, b, key->Some_0);
            }
            if value is Some {
                lemma_has_name_kept(a, b, value->Some_0);
            }
        },
        HelperBody::Struct { fields } => {
            assert forall|i: int| 0 <= i < fields@.len() implies b.has_name(
                (#[trigger] fields@[i]).helper,
            ) by {
                lemma_has_name_kept(a, b, fields@[i].helper);
            }
        },
        HelperBody::Union { cases } => {
            assert forall|c: int, i: int|
                0 <= c < cases@.len() && 0 <= i < cases@[c].fields@.len() implies b.has_name(
                (#[trigger] cases@[c].fields@[i]).helper,
            ) by {
                lemma_has_name_kept(a, b, cases@[c].fields@[i].helper);
            }
        },
        HelperBody::RecUnion { cases, .. } => {
            assert forall|c: int, k: int|
                0 <= c < cases@.len() && 0 <= k < cases@[c].steps@.len() && (
                #[trigger] cases@[c].steps@[k]) is ModifyField implies b.has_name(
                cases@[c].steps@[k]->ModifyField_0.helper,
            ) by {
                lemma_has_name_kept(a, b, cases@[c].steps@[k]->ModifyField_0.helper);
            }
        },
        _ => {},
    }
}

pub(crate) proof fn lemma_ctx_kept(ctx: WhenRecursive, mode: Mode, a: Emitter, b: Emitter)
    requires
        ctx_ok(ctx, mode, a),
        a.extends(&b),
    ensures
        ctx_ok(ctx, mode, b),
{
    match ctx {
        WhenRecursive::Unreachable => {},
        WhenRecursive::Loop(u) => {
            let id = choose|id: int|
                0 <= id < a.ids().len() && #[trigger] a.ids()[id] == rec_key(*u) && a.has_name(
                    HelperName { mode, kind: HelperKind::RecUnion, id: id as u64 },
                );
            lemma_has_name_kept(a, b, HelperName { mode, kind: HelperKind::RecUnion, id: id as u64 });
            assert(b.ids()[id] == rec_key(*u));
        },
    }
}

pub(crate) proof fn lemma_names_kept(
    names: Seq<Option<HelperName>>,
    fields: Seq<Layout>,
    lp: Option<UnionLayout>,
    mode: Mode,
    a: Emitter,
    b: Emitter,
)
    requires
        opt_names_ok(names, fields, lp, mode, a),
        a.extends(&b),
    ensures
        opt_names_ok(names, fields, lp, mode, b),
{
    assert forall|i: int| 0 <= i < fields.len() implies opt_name_ok(
        #[trigger] names[i],
        fields[i],
        lp,
        mode,
        b,
    ) by {
        if names[i] is Some {
            let n = names[i]->Some_0;
            lemma_has_name_kept(a, b, n);
            assert(b.ids()[n.id as int] == a.ids()[n.id as int]);
        }
    }
}

impl Emitter {
    /// An empty module for a target with `ptr_bytes`-byte pointers.
    pub fn new(ptr_bytes: u32, leak: bool) -> (r: Emitter)
        requires
            valid_ptr_bytes(ptr_bytes),
        ensures
            r.wf(),
            r.no_pending(),
            r.ptr_bytes == ptr_bytes,
            r.leak == leak,
            r.ids().len() == 0,
            r.helpers@.len() == 0,
            r.decrement_helpers@.len() == 0,
    {
        Emitter {
            ptr_bytes,
            leak,
            layout_ids: LayoutIds::new(),
            helpers: Vec::new(),
            decrement_helpers: Vec::new(),
        }
    }

    /// Whether a helper named `n` is in the module.
    pub fn has_helper(&self, n: HelperName) -> (r: bool)
        ensures
            r == self.has_name(n),
    {
        let mut j: usize = 0;
        while j < self.helpers.len()
            invariant
                j <= self.helpers@.len(),
                forall|k: int| 0 <= k < j ==> (#[trigger] self.helpers@[k]).name != n,
            decreases self.helpers@.len() - j,
        {
            if self.helpers[j].name == n {
                assert(self.helpers@[j as int].name == n);
                return true;
            }
            j = j + 1;
        }
        false
    }

    /// Interns `key` and declares the helper named by it, unless the module
    /// has it; the flag says whether it was declared now.
    pub(crate) fn start(&mut self, key: Vec<u64>, kind: HelperKind, mode: Mode) -> (r: (HelperName, bool))
        requires
            old(self).wf(),
        ensures
            final(self).wf(),
            r.0.mode == mode,
            r.0.kind == kind,
            r.0.id < final(self).ids().len(),
            final(self).ids()[r.0.id as int] == key@,
            old(self).extends(&*final(self)),
            final(self).has_name(r.0),
            r.1 == !old(self).has_name(r.0),
            !r.1 ==> *final(self) == *old(self),
            r.1 ==> final(self).helpers@ == old(self).helpers@.push(
                Helper { name: r.0, body: HelperBody::Pending },
            ),
            r.1 ==> final(self).decrement_helpers == old(self).decrement_helpers,
    {
        let ghost before = self.ids();
        let id = self.layout_ids.get(key);
        let name = HelperName { mode, kind, id };
        if self.has_helper(name) {
            proof {
                let j = choose|j: int|
                    0 <= j < self.helpers@.len() && (#[trigger] self.helpers@[j]).name == name;
                assert(self.helpers@[j].name.id < before.len());
            }
            return (name, false);
        }
        let ghost mid = *self;
        self.helpers.push(Helper { name, body: HelperBody::Pending });
        proof {
            assert(self.helpers@[self.helpers@.len() - 1].name == name);
            assert forall|j: int| 0 <= j < self.helpers@.len() implies body_refs_ok(
                (#[trigger] self.helpers@[j]).body,
                *self,
            ) by {
                if j < mid.helpers@.len() {
                    assert(body_refs_ok(old(self).helpers@[j].body, *old(self)));
                    lemma_refs_kept(old(self).helpers@[j].body, *old(self), *self);
                }
            }
        }
        (name, true)
    }

    /// Gives the helper at `idx` its body.
    pub(crate) fn finish(&mut self, idx: usize, body: HelperBody)
        requires
            old(self).wf(),
            idx < old(self).helpers@.len(),
            old(self).helpers@[idx as int].name.mode == Mode::Dec && touches_cell(
                old(self).helpers@[idx as int].name.kind,
            ) ==> old(self).has_decrement_helper(old(self).ptr_bytes),
            body_refs_ok(body, *old(self)),
        ensures
            final(self).wf(),
            final(self).helpers@ == old(self).helpers@.update(
                idx as int,
                Helper { name: old(self).helpers@[idx as int].name, body },
            ),
            final(self).layout_ids == old(self).layout_ids,
            final(self).decrement_helpers == old(self).decrement_helpers,
            final(self).ptr_bytes == old(self).ptr_bytes,
            final(self).leak == old(self).leak,
    {
        let name = self.helpers[idx].name;
        self.helpers[idx] = Helper { name, body };
        proof {
            assert forall|j: int|
                0 <= j < self.helpers@.len() && needs_decrement_helper(
                    #[trigger] self.helpers@[j],
                ) implies self.has_decrement_helper(self.ptr_bytes) by {
                if j != idx {
                    assert(needs_decrement_helper(old(self).helpers@[j]));
                }
            }
            assert(old(self).extends(&*self));
            assert forall|j: int| 0 <= j < self.helpers@.len() implies body_refs_ok(
                (#[trigger] self.helpers@[j]).body,
                *self,
            ) by {
                if j != idx {
                    assert(body_refs_ok(old(self).helpers@[j].body, *old(self)));
                    lemma_refs_kept(old(self).helpers@[j].body, *old(self), *self);
                } else {
                    lemma_refs_kept(body, *old(self), *self);
                }
            }
        }
    }

    /// Makes sure the module has the shared decrement helper for cells
    /// aligned to the pointer width.
    pub(crate) fn require_decrement_helper(&mut self)
        requires
            old(self).wf(),
        ensures
            final(self).wf(),
            old(self).extends(&*final(self)),
            final(self).helpers == old(self).helpers,
            final(self).layout_ids == old(self).layout_ids,
            final(self).has_decrement_helper(final(self).ptr_bytes),
    {
        let mut k: usize = 0;
        while k < self.decrement_helpers.len()
            invariant
                self.wf(),
                self == old(self),
                k <= self.decrement_helpers@.len(),
                forall|i: int| 0 <= i < k ==> (#[trigger] self.decrement_helpers@[i]).alignment != self.ptr_bytes,
            decreases self.decrement_helpers@.len() - k,
        {
            if self.decrement_helpers[k].alignment == self.ptr_bytes {
                assert(self.decrement_helpers@[k as int].alignment == self.ptr_bytes);
                return;
            }
            k = k + 1;
        }
        let d = build_decrement_helper(self.ptr_bytes, self.ptr_bytes, self.leak);
        self.decrement_helpers.push(d);
        assert(self.decrement_helpers@[self.decrement_helpers@.len() - 1].alignment == self.ptr_bytes);
        assert(self.has_decrement_helper(self.ptr_bytes));
    }
}

/// What a request for the `mode` helper of a top-level `layout` leaves
/// behind: a helper exactly when the layout contains refcounted data,
/// emitted as `emitted` says; otherwise nothing changes.
pub open spec fn modified(
    old: Emitter,
    new: Emitter,
    layout: Layout,
    mode: Mode,
    r: Option<HelperName>,
) -> bool {
    &&& new.wf()
    &&& old.grows_to(&new)
    &&& old.no_pending() ==> new.no_pending()
    &&& r is Some <==> contains_refcounted(layout)
    &&& contains_refcounted(layout) ==> emitted(old, new, layout, None, mode, r)
    &&& !contains_refcounted(layout) ==> new == old
}

proof fn lemma_no_pending_kept(a: Emitter, b: Emitter)
    requires
        a.grows_to(&b),
        a.no_pending(),
    ensures
        b.no_pending(),
{
    assert forall|j: int| 0 <= j < b.helpers@.len() implies !((#[trigger] b.helpers@[j]).body is Pending) by {
        if j < a.helpers@.len() {
            assert(body_kept(a.helpers@[j].body, b.helpers@[j].body));
        }
    }
}

impl Emitter {
    /// The helper to call to increment (`Inc`) or decrement (`Dec`) a value
    /// of `layout`, emitted with every helper it calls unless the module
    /// has it; `None` where the layout holds nothing refcounted.
    pub fn modify_refcount_layout(&mut self, layout: &Layout, mode: Mode) -> (r: Option<HelperName>)
        requires
            old(self).wf(),
            wf_layout(*layout, false),
        ensures
            modified(*old(self), *final(self), *layout, mode, r),
    {
        if !layout.contains_refcounted() {
            proof {
                lemma_grows_refl(*self);
            }
            return None;
        }
        let ghost s0 = *self;
        proof {
            lemma_refcounted_has_helper(*layout, None);
        }
        let r = self.build_function(layout, mode, &WhenRecursive::Unreachable);
        proof {
            if s0.no_pending() {
                lemma_no_pending_kept(s0, *self);
            }
        }
        r
    }

    /// The helper that adds an amount to the count of every cell that a
    /// value of `layout` holds.
    pub fn increment_refcount_layout(&mut self, layout: &Layout) -> (r: Option<HelperName>)
        requires
            old(self).wf(),
            wf_layout(*layout, false),
        ensures
            modified(*old(self), *final(self), *layout, Mode::Inc, r),
    {
        self.modify_refcount_layout(layout, Mode::Inc)
    }

    /// The helper that takes one from the count of every cell that a value
    /// of `layout` holds, freeing those that reach zero.
    pub fn decrement_refcount_layout(&mut self, layout: &Layout) -> (r: Option<HelperName>)
        requires
            old(self).wf(),
            wf_layout(*layout, false),
        ensures
            modified(*old(self), *final(self), *layout, Mode::Dec, r),
    {
        self.modify_refcount_layout(layout, Mode::Dec)
    }
}

/// Requesting the same helper twice emits it once: the second request
/// returns the same name and leaves the module as it was, and the module
/// holds exactly one helper under that name.
pub proof fn lemma_requested_twice(
    e0: Emitter,
    e1: Emitter,
    e2: Emitter,
    layout: Layout,
    mode: Mode,
    r1: Option<HelperName>,
    r2: Option<HelperName>,
)
    requires
        modified(e0, e1, layout, mode, r1),
        modified(e1, e2, layout, mode, r2),
    ensures
        r1 == r2,
        e2 == e1,
        r1 matches Some(n) ==> e2.has_name(n) && forall|i: int, j: int|
            0 <= i < e2.helpers@.len() && 0 <= j < e2.helpers@.len() && (#[trigger] e2.helpers@[i]).name
                == n && (#[trigger] e2.helpers@[j]).name == n ==> i == j,
{
    if contains_refcounted(layout) {
        let n1 = r1->Some_0;
        let n2 = r2->Some_0;
        assert(e2.ids()[n1.id as int] == e1.ids()[n1.id as int]);
        lemma_name_for(n1, layout, None, mode, e2.ids());
        lemma_name_for(n2, layout, None, mode, e2.ids());
        assert(n1 == n2);
    }
}

/// The increment and decrement helpers of a layout carry the same id, and
/// so names that differ only in their mode.
pub proof fn lemma_inc_dec_share_id(
    inc: HelperName,
    dec: HelperName,
    l: Layout,
    lp: Option<UnionLayout>,
    ids: Seq<Seq<u64>>,
)
    requires
        distinct_keys(ids),
        names_helper(inc, l, lp, Mode::Inc, ids),
        names_helper(dec, l, lp, Mode::Dec, ids),
    ensures
        inc.id == dec.id,
        inc.kind == dec.kind,
{
    lemma_name_for(inc, l, lp, Mode::Inc, ids);
    lemma_name_for(dec, l, lp, Mode::Dec, ids);
}

} // verus!
