use roc_refcount::layout::{Builtin, Layout, MemoryMode, UnionLayout};
use roc_refcount::refcount::refcount_offset;

fn str_layout() -> Layout {
    Layout::Builtin(Builtin::Str)
}

fn i64_layout() -> Layout {
    Layout::Builtin(Builtin::Int64)
}

#[test]
fn refcount_offset_is_one_word_for_cells() {
    assert_eq!(refcount_offset(&str_layout(), 8, 16), 8);
    let list = Layout::Builtin(Builtin::List(MemoryMode::Refcounted, Box::new(i64_layout())));
    assert_eq!(refcount_offset(&list, 4, 8), 4);
    assert_eq!(refcount_offset(&Layout::RecursivePointer, 8, 8), 8);
    let u = Layout::Union(UnionLayout::Recursive(vec![vec![i64_layout()]]));
    assert_eq!(refcount_offset(&u, 8, 8), 8);
}

#[test]
fn refcount_offset_covers_larger_values() {
    assert_eq!(refcount_offset(&Layout::Builtin(Builtin::Int128), 8, 16), 16);
    assert_eq!(refcount_offset(&Layout::Builtin(Builtin::Int8), 8, 1), 8);
    assert_eq!(refcount_offset(&Layout::Struct(vec![i64_layout(), i64_layout()]), 4, 16), 16);
}

#[test]
fn well_formed_layouts_are_accepted() {
    let cons = Layout::Union(UnionLayout::NullableUnwrapped {
        nullable_id: true,
        other_fields: vec![i64_layout(), str_layout(), Layout::RecursivePointer],
    });
    assert!(cons.is_well_formed(false));
    let nested = Layout::Struct(vec![
        str_layout(),
        Layout::Union(UnionLayout::NullableWrapped {
            nullable_id: 0,
            other_tags: vec![vec![Layout::Struct(vec![Layout::RecursivePointer])]],
        }),
    ]);
    assert!(nested.is_well_formed(false));
    assert!(i64_layout().is_well_formed(false));
}

#[test]
fn misplaced_recursive_pointers_are_rejected() {
    assert!(!Layout::RecursivePointer.is_well_formed(false));
    assert!(Layout::RecursivePointer.is_well_formed(true));
    assert!(!Layout::Struct(vec![i64_layout(), Layout::RecursivePointer]).is_well_formed(false));
    let naked = Layout::Union(UnionLayout::Recursive(vec![vec![Layout::Union(
        UnionLayout::NonRecursive(vec![vec![Layout::RecursivePointer]]),
    )]]));
    assert!(!naked.is_well_formed(false));
}

#[test]
fn unions_without_tags_are_rejected() {
    assert!(!Layout::Union(UnionLayout::NonRecursive(vec![])).is_well_formed(false));
    assert!(!Layout::Union(UnionLayout::Recursive(vec![])).is_well_formed(false));
    let no_slot = Layout::Union(UnionLayout::NullableUnwrapped { nullable_id: false, other_fields: vec![] });
    assert!(!no_slot.is_well_formed(false));
}

#[test]
fn refcounted_layouts_are_classified() {
    assert!(str_layout().is_refcounted());
    assert!(str_layout().contains_refcounted());
    let by_value = Layout::Builtin(Builtin::List(MemoryMode::ByValue, Box::new(str_layout())));
    assert!(!by_value.is_refcounted());
    assert!(!by_value.contains_refcounted());
    let record = Layout::Struct(vec![i64_layout(), str_layout()]);
    assert!(!record.is_refcounted());
    assert!(record.contains_refcounted());
    let tags = Layout::Union(UnionLayout::NonRecursive(vec![vec![i64_layout()], vec![str_layout()]]));
    assert!(!tags.is_refcounted());
    assert!(tags.contains_refcounted());
    let closure = Layout::Closure(vec![str_layout()], Box::new(i64_layout()), Box::new(str_layout()));
    assert!(!closure.contains_refcounted());
    let set = Layout::Builtin(Builtin::SetOf(Box::new(i64_layout())));
    assert!(set.is_refcounted());
}
