//! Layouts: the in-memory shapes of values, as the layout solver hands them
//! to code generation.
use vstd::prelude::*;

verus! {

/// How a list holds its elements.
#[derive(Clone, Copy, Debug, PartialEq, Eq, Structural)]
pub enum MemoryMode {
    /// The elements live in a refcounted heap allocation.
    Refcounted,
    /// The list is passed by value and has no refcount.
    ByValue,
}

/// The layouts of builtin types.
#[derive(Debug)]
pub enum Builtin {
    Int128,
    Int64,
    Int32,
    Int16,
    Int8,
    Int1,
    Usize,
    Float128,
    Float64,
    Float32,
    Float16,
    Str,
    Dict(Box<Layout>, Box<Layout>),
    /// A set: a dict whose keys are the elements and whose values are empty.
    SetOf(Box<Layout>),
    List(MemoryMode, Box<Layout>),
    EmptyStr,
    EmptyList,
    EmptyDict,
    EmptySet,
}

/// The shapes of tagged unions; each tag is the list of its fields' layouts.
#[derive(Debug)]
#[allow(inconsistent_fields)]
pub enum UnionLayout {
    /// Stored inline, tag beside the payload; no heap cell of its own.
    NonRecursive(Vec<Vec<Layout>>),
    /// Every value is a pointer to a heap cell whose first word is the tag.
    Recursive(Vec<Vec<Layout>>),
    /// A single tag behind a pointer that is never null.
    NonNullableUnwrapped(Vec<Layout>),
    /// One tag is represented by the null pointer; the others by heap cells.
    NullableWrapped { nullable_id: i64, other_tags: Vec<Vec<Layout>> },
    /// Two tags: the null pointer, and one other tag whose first field is its
    /// tag slot.
    NullableUnwrapped { nullable_id: bool, other_fields: Vec<Layout> },
}

/// A value's layout.
#[derive(Debug)]
pub enum Layout {
    Builtin(Builtin),
    Struct(Vec<Layout>),
    Union(UnionLayout),
    /// Inside a union's tags: a pointer to a value of the enclosing union.
    RecursivePointer,
    FunctionPointer(Vec<Layout>, Box<Layout>),
    /// Argument layouts, the layout of the captured data, and the return layout.
    Closure(Vec<Layout>, Box<Layout>, Box<Layout>),
    Pointer(Box<Layout>),
    PhantomEmptyStruct,
}

/// Whether a builtin value has a refcounted heap cell.
pub open spec fn builtin_is_refcounted(b: Builtin) -> bool {
    match b {
        Builtin::Str | Builtin::Dict(_, _) | Builtin::SetOf(_) => true,
        Builtin::List(mode, _) => mode == MemoryMode::Refcounted,
        _ => false,
    }
}

/// Whether the union's values are pointers to heap cells.
pub open spec fn union_is_recursive(u: UnionLayout) -> bool {
    !(u is NonRecursive)
}

/// Whether a value of the layout is itself a refcounted heap cell.
pub open spec fn is_refcounted(l: Layout) -> bool {
    match l {
        Layout::Builtin(b) => builtin_is_refcounted(b),
        Layout::Union(u) => union_is_recursive(u),
        Layout::RecursivePointer => true,
        _ => false,
    }
}

/// Whether some layout of the sequence contains refcounted data.
pub open spec fn any_contains_refcounted(fields: Seq<Layout>) -> bool
    decreases fields,
{
    if fields.len() == 0 {
        false
    } else {
        any_contains_refcounted(fields.drop_last()) || contains_refcounted(fields.last())
    }
}

/// Whether some tag has a field that contains refcounted data.
pub open spec fn any_tag_contains_refcounted(tags: Seq<Vec<Layout>>) -> bool
    decreases tags,
{
    if tags.len() == 0 {
        false
    } else {
        any_tag_contains_refcounted(tags.drop_last()) || any_contains_refcounted(tags.last()@)
    }
}

/// Whether a value of the layout is, or holds somewhere inline, a refcounted
/// heap cell.
pub open spec fn contains_refcounted(l: Layout) -> bool
    decreases l,
{
    match l {
        Layout::Builtin(b) => builtin_is_refcounted(b),
        Layout::PhantomEmptyStruct => false,
        Layout::Struct(fields) => any_contains_refcounted(fields@),
        Layout::Union(u) => match u {
            UnionLayout::NonRecursive(tags) => any_tag_contains_refcounted(tags@),
            _ => true,
        },
        Layout::RecursivePointer => true,
        Layout::Closure(_, captured, _) => contains_refcounted(*captured),
        Layout::FunctionPointer(_, _) | Layout::Pointer(_) => false,
    }
}

/// `any_contains_refcounted` holds exactly when some element contains
/// refcounted data.
pub proof fn lemma_any_contains_refcounted(fields: Seq<Layout>)
    ensures
        any_contains_refcounted(fields) <==> exists|i: int|
            0 <= i < fields.len() && #[trigger] contains_refcounted(fields[i]),
    decreases fields.len(),
{
    if fields.len() > 0 {
        assert(any_contains_refcounted(fields) == (any_contains_refcounted(fields.drop_last()) || contains_refcounted(fields.last())));
        lemma_any_contains_refcounted(fields.drop_last());
        if any_contains_refcounted(fields.drop_last()) {
            let i = choose|i: int|
                0 <= i < fields.drop_last().len() && #[trigger] contains_refcounted(
                    fields.drop_last()[i],
                );
            assert(contains_refcounted(fields[i]));
        }
        if exists|i: int| 0 <= i < fields.len() && #[trigger] contains_refcounted(fields[i]) {
            let i = choose|i: int| 0 <= i < fields.len() && #[trigger] contains_refcounted(fields[i]);
            if i < fields.len() - 1 {
                assert(contains_refcounted(fields.drop_last()[i]));
            }
        }
    }
}

proof fn lemma_tags_prefix(tags: Seq<Vec<Layout>>, t: int)
    requires
        0 <= t < tags.len(),
        any_contains_refcounted(tags[t]@),
    ensures
        any_tag_contains_refcounted(tags),
    decreases tags.len(),
{
    if t < tags.len() - 1 {
        lemma_tags_prefix(tags.drop_last(), t);
    }
}

impl Builtin {
    pub fn is_refcounted(&self) -> (r: bool)
        ensures
            r == builtin_is_refcounted(*self),
    {
        match self {
            Builtin::Str | Builtin::Dict(_, _) | Builtin::SetOf(_) => true,
            Builtin::List(mode, _) => *mode == MemoryMode::Refcounted,
            _ => false,
        }
    }
}

impl Layout {
    pub fn is_refcounted(&self) -> (r: bool)
        ensures
            r == is_refcounted(*self),
    {
        match self {
            Layout::Builtin(b) => b.is_refcounted(),
            Layout::Union(u) => match u {
                UnionLayout::NonRecursive(_) => false,
                _ => true,
            },
            Layout::RecursivePointer => true,
            _ => false,
        }
    }

    pub fn contains_refcounted(&self) -> (r: bool)
        ensures
            r == contains_refcounted(*self),
        decreases self,
    {
        match self {
            Layout::Builtin(b) => b.is_refcounted(),
            Layout::PhantomEmptyStruct => false,
            Layout::Struct(fields) => fields_contain_refcounted(fields),
            Layout::Union(u) => match u {
                UnionLayout::NonRecursive(tags) => {
                    let mut t: usize = 0;
                    while t < tags.len()
                        invariant
                            *self == Layout::Union(UnionLayout::NonRecursive(*tags)),
                            t <= tags.len(),
                            !any_tag_contains_refcounted(tags@.subrange(0, t as int)),
                        decreases tags.len() - t,
                    {
                        proof {
                            assert(tags@.subrange(0, t + 1).drop_last() =~= tags@.subrange(0, t as int));
                            let ghost un = (*self)->Union_0;
                            assert(decreases_to!(*self => un));
                            assert(decreases_to!(un => un->NonRecursive_0));
                            assert(decreases_to!(*tags => tags[t as int]));
                            assert(decreases_to!(*self => tags[t as int]));
                        }
                        if fields_contain_refcounted(&tags[t]) {
                            proof {
                                lemma_tags_prefix(tags@, t as int);
                                assert(contains_refcounted(*self));
                            }
                            return true;
                        }
                        t = t + 1;
                    }
                    assert(tags@.subrange(0, t as int) =~= tags@);
                    false
                },
                _ => true,
            },
            Layout::RecursivePointer => true,
            Layout::Closure(_, captured, _) => captured.contains_refcounted(),
            Layout::FunctionPointer(_, _) | Layout::Pointer(_) => false,
        }
    }
}

/// Whether some field of a tag contains refcounted data.
pub fn fields_contain_refcounted(fields: &Vec<Layout>) -> (r: bool)
    ensures
        r == any_contains_refcounted(fields@),
    decreases fields,
{
    let mut i: usize = 0;
    while i < fields.len()
        invariant
            i <= fields.len(),
            forall|k: int| 0 <= k < i ==> !contains_refcounted(#[trigger] fields@[k]),
        decreases fields.len() - i,
    {
        if fields[i].contains_refcounted() {
            proof {
                lemma_any_contains_refcounted(fields@);
            }
            return true;
        }
        i = i + 1;
    }
    proof {
        lemma_any_contains_refcounted(fields@);
    }
    false
}

/// The fields of a tag are well formed; a non-recursive union's tags hold
/// no recursive pointer directly.
pub open spec fn wf_fields(fields: Seq<Layout>, in_loop: bool, nonrec: bool) -> bool
    decreases fields, 0nat,
{
    if fields.len() == 0 {
        true
    } else {
        &&& wf_fields(fields.drop_last(), in_loop, nonrec)
        &&& wf_layout(fields.last(), in_loop)
        &&& !(nonrec && fields.last() is RecursivePointer)
    }
}

/// Every tag's fields are well formed.
pub open spec fn wf_tags(tags: Seq<Vec<Layout>>, in_loop: bool, nonrec: bool) -> bool
    decreases tags, 0nat,
{
    if tags.len() == 0 {
        true
    } else {
        wf_tags(tags.drop_last(), in_loop, nonrec) && wf_fields(tags.last()@, in_loop, nonrec)
    }
}

/// A layout that code generation accepts: a recursive pointer stands only
/// inside a recursive union (`in_loop`) and never directly in a tag of a
/// non-recursive union; every union has a tag; the one tag of a
/// `NullableUnwrapped` union starts with its tag slot.
pub open spec fn wf_layout(l: Layout, in_loop: bool) -> bool
    decreases l,
{
    match l {
        Layout::Builtin(b) => match b {
            Builtin::Dict(k, v) => wf_layout(*k, in_loop) && wf_layout(*v, in_loop),
            Builtin::SetOf(e) => wf_layout(*e, in_loop),
            Builtin::List(_, e) => wf_layout(*e, in_loop),
            _ => true,
        },
        Layout::Struct(fields) => wf_fields(fields@, in_loop, false),
        Layout::Union(u) => match u {
            UnionLayout::NonRecursive(tags) => tags.len() > 0 && wf_tags(tags@, in_loop, true),
            UnionLayout::Recursive(tags) => tags.len() > 0 && wf_tags(tags@, true, false),
            UnionLayout::NullableWrapped { other_tags, .. } => other_tags.len() > 0 && wf_tags(
                other_tags@,
                true,
                false,
            ),
            UnionLayout::NonNullableUnwrapped(fields) => wf_fields(fields@, true, false),
            UnionLayout::NullableUnwrapped { other_fields, .. } => other_fields.len() > 0
                && wf_fields(other_fields@, true, false),
        },
        Layout::RecursivePointer => in_loop,
        Layout::Closure(_, captured, _) => wf_layout(*captured, in_loop),
        _ => true,
    }
}

/// Each field of well-formed fields is well formed.
pub proof fn lemma_wf_fields(fields: Seq<Layout>, in_loop: bool, nonrec: bool, i: int)
    requires
        wf_fields(fields, in_loop, nonrec),
        0 <= i < fields.len(),
    ensures
        wf_layout(fields[i], in_loop),
        !(nonrec && fields[i] is RecursivePointer),
    decreases fields.len(),
{
    if i < fields.len() - 1 {
        lemma_wf_fields(fields.drop_last(), in_loop, nonrec, i);
    }
}

/// Each tag of well-formed tags has well-formed fields.
pub proof fn lemma_wf_tags(tags: Seq<Vec<Layout>>, in_loop: bool, nonrec: bool, t: int)
    requires
        wf_tags(tags, in_loop, nonrec),
        0 <= t < tags.len(),
    ensures
        wf_fields(tags[t]@, in_loop, nonrec),
    decreases tags.len(),
{
    if t < tags.len() - 1 {
        lemma_wf_tags(tags.drop_last(), in_loop, nonrec, t);
    }
}

/// A well-formed suffix of well-formed fields.
pub proof fn lemma_wf_fields_skip(fields: Seq<Layout>, in_loop: bool, nonrec: bool, k: int)
    requires
        wf_fields(fields, in_loop, nonrec),
        0 <= k <= fields.len(),
    ensures
        wf_fields(fields.subrange(k, fields.len() as int), in_loop, nonrec),
    decreases fields.len(),
{
    let s = fields.subrange(k, fields.len() as int);
    if k < fields.len() {
        lemma_wf_fields_skip(fields.drop_last(), in_loop, nonrec, k);
        assert(s.drop_last() =~= fields.drop_last().subrange(k, fields.len() - 1));
    } else {
        assert(s.len() == 0);
    }
}


impl Layout {
    /// Whether code generation accepts the layout; `in_loop` says whether it
    /// stands inside a recursive union.
    pub fn is_well_formed(&self, in_loop: bool) -> (r: bool)
        ensures
            r == wf_layout(*self, in_loop),
        decreases self,
    {
        match self {
            Layout::Builtin(b) => {
                proof {
                    assert(decreases_to!(*self => self->Builtin_0));
                }
                match b {
                    Builtin::Dict(k, v) => {
                        proof {
                            assert(decreases_to!(*b => b->Dict_0));
                            assert(decreases_to!(*b => b->Dict_1));
                        }
                        k.is_well_formed(in_loop) && v.is_well_formed(in_loop)
                    },
                    Builtin::SetOf(e) => {
                        proof {
                            assert(decreases_to!(*b => b->SetOf_0));
                        }
                        e.is_well_formed(in_loop)
                    },
                    Builtin::List(_, e) => {
                        proof {
                            assert(decreases_to!(*b => b->List_1));
                        }
                        e.is_well_formed(in_loop)
                    },
                    _ => true,
                }
            },
            Layout::Struct(fields) => {
                proof {
                    assert(decreases_to!(*self => self->Struct_0));
                }
                fields_well_formed(fields, in_loop, false)
            },
            Layout::Union(u) => {
                proof {
                    assert(decreases_to!(*self => self->Union_0));
                }
                match u {
                    UnionLayout::NonRecursive(tags) => {
                        proof {
                            assert(decreases_to!(*u => u->NonRecursive_0));
                        }
                        tags.len() > 0 && tags_well_formed(tags, in_loop, true)
                    },
                    UnionLayout::Recursive(tags) => {
                        proof {
                            assert(decreases_to!(*u => u->Recursive_0));
                        }
                        tags.len() > 0 && tags_well_formed(tags, true, false)
                    },
                    UnionLayout::NullableWrapped { other_tags, .. } => {
                        proof {
                            assert(decreases_to!(*u => u->other_tags));
                        }
                        other_tags.len() > 0 && tags_well_formed(other_tags, true, false)
                    },
                    UnionLayout::NonNullableUnwrapped(fields) => {
                        proof {
                            assert(decreases_to!(*u => u->NonNullableUnwrapped_0));
                        }
                        fields_well_formed(fields, true, false)
                    },
                    UnionLayout::NullableUnwrapped { other_fields, .. } => {
                        proof {
                            assert(decreases_to!(*u => u->other_fields));
                        }
                        other_fields.len() > 0 && fields_well_formed(other_fields, true, false)
                    },
                }
            },
            Layout::RecursivePointer => in_loop,
            Layout::Closure(_, captured, _) => {
                proof {
                    assert(decreases_to!(*self => self->Closure_1));
                }
                captured.is_well_formed(in_loop)
            },
            _ => true,
        }
    }
}

/// Whether the fields of a tag are well formed.
pub fn fields_well_formed(fields: &Vec<Layout>, in_loop: bool, nonrec: bool) -> (r: bool)
    ensures
        r == wf_fields(fields@, in_loop, nonrec),
    decreases fields,
{
    let mut i: usize = 0;
    while i < fields.len()
        invariant
            i <= fields@.len(),
            wf_fields(fields@.subrange(0, i as int), in_loop, nonrec),
        decreases fields@.len() - i,
    {
        proof {
            assert(decreases_to!(*fields => fields[i as int]));
            assert(fields@.subrange(0, i + 1).drop_last() =~= fields@.subrange(0, i as int));
        }
        let is_rec = match &fields[i] {
            Layout::RecursivePointer => true,
            _ => false,
        };
        if !fields[i].is_well_formed(in_loop) || (nonrec && is_rec) {
            proof {
                assert(!wf_fields(fields@.subrange(0, i + 1), in_loop, nonrec));
                if wf_fields(fields@, in_loop, nonrec) {
                    lemma_wf_fields_prefix(fields@, in_loop, nonrec, i + 1);
                }
            }
            return false;
        }
        i = i + 1;
    }
    assert(fields@.subrange(0, i as int) =~= fields@);
    true
}

/// Whether every tag's fields are well formed.
pub fn tags_well_formed(tags: &Vec<Vec<Layout>>, in_loop: bool, nonrec: bool) -> (r: bool)
    ensures
        r == wf_tags(tags@, in_loop, nonrec),
    decreases tags,
{
    let mut t: usize = 0;
    while t < tags.len()
        invariant
            t <= tags@.len(),
            wf_tags(tags@.subrange(0, t as int), in_loop, nonrec),
        decreases tags@.len() - t,
    {
        proof {
            assert(decreases_to!(*tags => tags[t as int]));
            assert(tags@.subrange(0, t + 1).drop_last() =~= tags@.subrange(0, t as int));
        }
        if !fields_well_formed(&tags[t], in_loop, nonrec) {
            proof {
                assert(!wf_tags(tags@.subrange(0, t + 1), in_loop, nonrec));
                if wf_tags(tags@, in_loop, nonrec) {
                    lemma_wf_tags_prefix(tags@, in_loop, nonrec, t + 1);
                }
            }
            return false;
        }
        t = t + 1;
    }
    assert(tags@.subrange(0, t as int) =~= tags@);
    true
}

/// Well-formed fields have well-formed prefixes.
proof fn lemma_wf_fields_prefix(fields: Seq<Layout>, in_loop: bool, nonrec: bool, k: int)
    requires
        wf_fields(fields, in_loop, nonrec),
        0 <= k <= fields.len(),
    ensures
        wf_fields(fields.subrange(0, k), in_loop, nonrec),
    decreases fields.len(),
{
    if k < fields.len() {
        lemma_wf_fields_prefix(fields.drop_last(), in_loop, nonrec, k);
        assert(fields.drop_last().subrange(0, k) =~= fields.subrange(0, k));
    } else {
        assert(fields.subrange(0, k) =~= fields);
    }
}

/// Well-formed tags have well-formed prefixes.
proof fn lemma_wf_tags_prefix(tags: Seq<Vec<Layout>>, in_loop: bool, nonrec: bool, k: int)
    requires
        wf_tags(tags, in_loop, nonrec),
        0 <= k <= tags.len(),
    ensures
        wf_tags(tags.subrange(0, k), in_loop, nonrec),
    decreases tags.len(),
{
    if k < tags.len() {
        lemma_wf_tags_prefix(tags.drop_last(), in_loop, nonrec, k);
        assert(tags.drop_last().subrange(0, k) =~= tags.subrange(0, k));
    } else {
        assert(tags.subrange(0, k) =~= tags);
    }
}

} // verus!
