//! A canonical encoding of layouts as words: two layouts get the same
//! helper id exactly when their encodings agree.
use vstd::prelude::*;
use crate::layout::{Builtin, Layout, MemoryMode, UnionLayout};

verus! {

/// The code of a builtin that has no inner layouts.
pub open spec fn builtin_code(b: Builtin) -> u64 {
    match b {
        Builtin::Int128 => 0,
        Builtin::Int64 => 1,
        Builtin::Int32 => 2,
        Builtin::Int16 => 3,
        Builtin::Int8 => 4,
        Builtin::Int1 => 5,
        Builtin::Usize => 6,
        Builtin::Float128 => 7,
        Builtin::Float64 => 8,
        Builtin::Float32 => 9,
        Builtin::Float16 => 10,
        Builtin::Str => 11,
        Builtin::Dict(_, _) => 12,
        Builtin::SetOf(_) => 13,
        Builtin::List(_, _) => 14,
        Builtin::EmptyStr => 15,
        Builtin::EmptyList => 16,
        Builtin::EmptyDict => 17,
        Builtin::EmptySet => 18,
    }
}

pub open spec fn mode_code(m: MemoryMode) -> u64 {
    match m {
        MemoryMode::Refcounted => 0,
        MemoryMode::ByValue => 1,
    }
}

/// The encodings of a sequence of layouts, one after the other.
pub open spec fn enc_items(s: Seq<Layout>) -> Seq<u64>
    decreases s, 0nat,
{
    if s.len() == 0 {
        Seq::empty()
    } else {
        enc_items(s.drop_last()) + enc(s.last())
    }
}

/// A sequence of layouts: its length, then its items.
pub open spec fn enc_seq(s: Seq<Layout>) -> Seq<u64>
    decreases s, 1nat,
{
    seq![#[verifier::truncate] (s.len() as u64)] + enc_items(s)
}

/// The encodings of a sequence of tags, one after the other.
pub open spec fn enc_tag_items(tags: Seq<Vec<Layout>>) -> Seq<u64>
    decreases tags, 0nat,
{
    if tags.len() == 0 {
        Seq::empty()
    } else {
        enc_tag_items(tags.drop_last()) + enc_seq(tags.last()@)
    }
}

/// A sequence of tags: its length, then each tag's fields.
pub open spec fn enc_tags(tags: Seq<Vec<Layout>>) -> Seq<u64>
    decreases tags, 1nat,
{
    seq![#[verifier::truncate] (tags.len() as u64)] + enc_tag_items(tags)
}

pub open spec fn enc_union(u: UnionLayout) -> Seq<u64>
    decreases u,
{
    match u {
        UnionLayout::NonRecursive(tags) => seq![0u64] + enc_tags(tags@),
        UnionLayout::Recursive(tags) => seq![1u64] + enc_tags(tags@),
        UnionLayout::NonNullableUnwrapped(fields) => seq![2u64] + enc_seq(fields@),
        UnionLayout::NullableWrapped { nullable_id, other_tags } => seq![
            3u64,
            nullable_id as u64,
        ] + enc_tags(other_tags@),
        UnionLayout::NullableUnwrapped { nullable_id, other_fields } => seq![
            4u64,
            if nullable_id {
                1u64
            } else {
                0u64
            },
        ] + enc_seq(other_fields@),
    }
}

/// The encoding of a layout.
pub open spec fn enc(l: Layout) -> Seq<u64>
    decreases l,
{
    match l {
        Layout::Builtin(b) => match b {
            Builtin::Dict(k, v) => seq![0u64, builtin_code(b)] + enc(*k) + enc(*v),
            Builtin::SetOf(e) => seq![0u64, builtin_code(b)] + enc(*e),
            Builtin::List(m, e) => seq![0u64, builtin_code(b), mode_code(m)] + enc(*e),
            _ => seq![0u64, builtin_code(b)],
        },
        Layout::Struct(fields) => seq![1u64] + enc_seq(fields@),
        Layout::Union(u) => seq![2u64] + enc_union(u),
        Layout::RecursivePointer => seq![3u64],
        Layout::FunctionPointer(args, ret) => seq![4u64] + enc_seq(args@) + enc(*ret),
        Layout::Closure(args, captured, ret) => seq![5u64] + enc_seq(args@) + enc(*captured) + enc(
            *ret,
        ),
        Layout::Pointer(inner) => seq![6u64] + enc(*inner),
        Layout::PhantomEmptyStruct => seq![7u64],
    }
}

/// Appends the encodings of the layouts of `s` from index `start` on.
pub fn encode_items_from(s: &Vec<Layout>, start: usize, out: &mut Vec<u64>)
    requires
        start <= s.len(),
    ensures
        final(out)@ == old(out)@ + enc_items(s@.subrange(start as int, s@.len() as int)),
    decreases s,
{
    let ghost first = out@;
    let mut i: usize = start;
    assert(s@.subrange(start as int, start as int) =~= Seq::<Layout>::empty());
    assert(out@ =~= first + enc_items(s@.subrange(start as int, start as int)));
    while i < s.len()
        invariant
            start <= i <= s.len(),
            out@ == first + enc_items(s@.subrange(start as int, i as int)),
        decreases s.len() - i,
    {
        proof {
            assert(decreases_to!(*s => s[i as int]));
        }
        encode_into(&s[i], out);
        proof {
            let sub = s@.subrange(start as int, i + 1);
            assert(sub.drop_last() =~= s@.subrange(start as int, i as int));
            assert(sub.last() == s@[i as int]);
            assert(out@ =~= first + enc_items(sub));
        }
        i = i + 1;
    }
}

/// Appends the encoding of a sequence of layouts.
pub fn encode_seq_into(s: &Vec<Layout>, out: &mut Vec<u64>)
    ensures
        final(out)@ == old(out)@ + enc_seq(s@),
    decreases s,
{
    let ghost start = out@;
    out.push(s.len() as u64);
    let mut i: usize = 0;
    while i < s.len()
        invariant
            i <= s.len(),
            out@ == start + seq![s@.len() as u64] + enc_items(s@.subrange(0, i as int)),
        decreases s.len() - i,
    {
        proof {
            assert(decreases_to!(*s => s[i as int]));
        }
        let ghost before = out@;
        encode_into(&s[i], out);
        proof {
            let sub = s@.subrange(0, i + 1);
            assert(sub.drop_last() =~= s@.subrange(0, i as int));
            assert(sub.last() == s@[i as int]);
            assert(out@ =~= start + seq![s@.len() as u64] + enc_items(sub));
        }
        i = i + 1;
    }
    assert(s@.subrange(0, i as int) =~= s@);
}

/// Appends the encoding of a sequence of tags.
pub fn encode_tags_into(tags: &Vec<Vec<Layout>>, out: &mut Vec<u64>)
    ensures
        final(out)@ == old(out)@ + enc_tags(tags@),
    decreases tags,
{
    let ghost start = out@;
    out.push(tags.len() as u64);
    let mut i: usize = 0;
    while i < tags.len()
        invariant
            i <= tags.len(),
            out@ == start + seq![tags@.len() as u64] + enc_tag_items(tags@.subrange(0, i as int)),
        decreases tags.len() - i,
    {
        proof {
            assert(decreases_to!(*tags => tags[i as int]));
        }
        encode_seq_into(&tags[i], out);
        proof {
            let sub = tags@.subrange(0, i + 1);
            assert(sub.drop_last() =~= tags@.subrange(0, i as int));
            assert(sub.last() == tags@[i as int]);
            assert(out@ =~= start + seq![tags@.len() as u64] + enc_tag_items(sub));
        }
        i = i + 1;
    }
    assert(tags@.subrange(0, i as int) =~= tags@);
}

/// Appends the encoding of a union layout.
pub fn encode_union_into(u: &UnionLayout, out: &mut Vec<u64>)
    ensures
        final(out)@ == old(out)@ + enc_union(*u),
    decreases u,
{
    let ghost start = out@;
    match u {
        UnionLayout::NonRecursive(tags) => {
            out.push(0);
            proof { assert(decreases_to!(*u => u->NonRecursive_0)); }
            encode_tags_into(tags, out);
        },
        UnionLayout::Recursive(tags) => {
            out.push(1);
            proof { assert(decreases_to!(*u => u->Recursive_0)); }
            encode_tags_into(tags, out);
        },
        UnionLayout::NonNullableUnwrapped(fields) => {
            out.push(2);
            proof { assert(decreases_to!(*u => u->NonNullableUnwrapped_0)); }
            encode_seq_into(fields, out);
        },
        UnionLayout::NullableWrapped { nullable_id, other_tags } => {
            out.push(3);
            out.push(*nullable_id as u64);
            proof { assert(decreases_to!(*u => u->other_tags)); }
            encode_tags_into(other_tags, out);
        },
        UnionLayout::NullableUnwrapped { nullable_id, other_fields } => {
            out.push(4);
            out.push(if *nullable_id { 1 } else { 0 });
            proof { assert(decreases_to!(*u => u->other_fields)); }
            encode_seq_into(other_fields, out);
        },
    }
    assert(out@ =~= start + enc_union(*u));
}

/// Appends the encoding of a layout.
pub fn encode_into(l: &Layout, out: &mut Vec<u64>)
    ensures
        final(out)@ == old(out)@ + enc(*l),
    decreases l,
{
    let ghost start = out@;
    match l {
        Layout::Builtin(b) => {
            out.push(0);
            proof { assert(decreases_to!(*l => l->Builtin_0)); }
            match b {
                Builtin::Dict(k, v) => {
                    out.push(12);
                    proof {
                        assert(decreases_to!(*b => b->Dict_0));
                        assert(decreases_to!(*b => b->Dict_1));
                    }
                    encode_into(k, out);
                    encode_into(v, out);
                },
                Builtin::SetOf(e) => {
                    out.push(13);
                    proof { assert(decreases_to!(*b => b->SetOf_0)); }
                    encode_into(e, out);
                },
                Builtin::List(m, e) => {
                    out.push(14);
                    out.push(
                        match m {
                            MemoryMode::Refcounted => 0,
                            MemoryMode::ByValue => 1,
                        },
                    );
                    proof { assert(decreases_to!(*b => b->List_1)); }
                    encode_into(e, out);
                },
                _ => {
                    out.push(builtin_scalar_code(b));
                },
            }
        },
        Layout::Struct(fields) => {
            out.push(1);
            proof { assert(decreases_to!(*l => l->Struct_0)); }
            encode_seq_into(fields, out);
        },
        Layout::Union(u) => {
            out.push(2);
            proof { assert(decreases_to!(*l => l->Union_0)); }
            encode_union_into(u, out);
        },
        Layout::RecursivePointer => {
            out.push(3);
        },
        Layout::FunctionPointer(args, ret) => {
            out.push(4);
            proof {
                assert(decreases_to!(*l => l->FunctionPointer_0));
                assert(decreases_to!(*l => l->FunctionPointer_1));
            }
            encode_seq_into(args, out);
            encode_into(ret, out);
        },
        Layout::Closure(args, captured, ret) => {
            out.push(5);
            proof {
                assert(decreases_to!(*l => l->Closure_0));
                assert(decreases_to!(*l => l->Closure_1));
                assert(decreases_to!(*l => l->Closure_2));
            }
            encode_seq_into(args, out);
            encode_into(captured, out);
            encode_into(ret, out);
        },
        Layout::Pointer(inner) => {
            out.push(6);
            proof { assert(decreases_to!(*l => l->Pointer_0)); }
            encode_into(inner, out);
        },
        Layout::PhantomEmptyStruct => {
            out.push(7);
        },
    }
    assert(out@ =~= start + enc(*l));
}

fn builtin_scalar_code(b: &Builtin) -> (r: u64)
    ensures
        r == builtin_code(*b),
{
    match b {
        Builtin::Int128 => 0,
        Builtin::Int64 => 1,
        Builtin::Int32 => 2,
        Builtin::Int16 => 3,
        Builtin::Int8 => 4,
        Builtin::Int1 => 5,
        Builtin::Usize => 6,
        Builtin::Float128 => 7,
        Builtin::Float64 => 8,
        Builtin::Float32 => 9,
        Builtin::Float16 => 10,
        Builtin::Str => 11,
        Builtin::Dict(_, _) => 12,
        Builtin::SetOf(_) => 13,
        Builtin::List(_, _) => 14,
        Builtin::EmptyStr => 15,
        Builtin::EmptyList => 16,
        Builtin::EmptyDict => 17,
        Builtin::EmptySet => 18,
    }
}

} // verus!
