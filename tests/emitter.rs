use roc_refcount::emit::Emitter;
use roc_refcount::helper::{FieldVisit, FreeAt, HelperBody, HelperKind, HelperName, Mode, Step};
use roc_refcount::layout::{Builtin, Layout, MemoryMode, UnionLayout};
use roc_refcount::refcount::{decrement_word, is_big_and_non_empty, DecrementOutcome};

fn str_layout() -> Layout {
    Layout::Builtin(Builtin::Str)
}

fn i64_layout() -> Layout {
    Layout::Builtin(Builtin::Int64)
}

fn list_of(elem: Layout) -> Layout {
    Layout::Builtin(Builtin::List(MemoryMode::Refcounted, Box::new(elem)))
}

fn cons_list_of(elem: Layout) -> Layout {
    Layout::Union(UnionLayout::NullableUnwrapped {
        nullable_id: true,
        other_fields: vec![i64_layout(), elem, Layout::RecursivePointer],
    })
}

fn body_of(e: &Emitter, n: HelperName) -> &HelperBody {
    let found: Vec<&HelperBody> = e.helpers.iter().filter(|h| h.name == n).map(|h| &h.body).collect();
    assert_eq!(found.len(), 1, "exactly one helper named {:?}", n);
    found[0]
}

#[test]
fn list_of_ints_decrement_skips_elements_and_frees_cell() {
    let mut e = Emitter::new(8, false);
    let n = e.decrement_refcount_layout(&list_of(i64_layout())).unwrap();
    assert_eq!(n.mode, Mode::Dec);
    assert_eq!(n.kind, HelperKind::List);
    assert!(matches!(body_of(&e, n), HelperBody::List { element: None }));
    assert_eq!(e.helpers.len(), 1);
    // refcount 1: the word is INT_MIN and the decrement frees the cell
    assert_eq!(decrement_word(i64::MIN, 8), DecrementOutcome::Freed);
    assert_eq!(e.decrement_helpers.len(), 1);
    assert_eq!(e.decrement_helpers[0].alignment, 8);
    // the cell starts at the refcount word, data_ptr - 8
    assert_eq!(e.decrement_helpers[0].free_at, FreeAt::RefcountWord);
}

#[test]
fn small_string_decrement_touches_no_memory() {
    let mut e = Emitter::new(8, false);
    let n = e.decrement_refcount_layout(&str_layout()).unwrap();
    assert_eq!(n.kind, HelperKind::Str);
    assert!(matches!(body_of(&e, n), HelperBody::Str));
    let hi_len: u64 = 0x8000_0000_0000_0000 | 2;
    assert!(!is_big_and_non_empty(hi_len, 8));
}

#[test]
fn static_list_of_strings_visits_elements_and_keeps_word() {
    let mut e = Emitter::new(8, false);
    let n = e.decrement_refcount_layout(&list_of(str_layout())).unwrap();
    let elem = match body_of(&e, n) {
        HelperBody::List { element: Some(h) } => *h,
        other => panic!("unexpected body {:?}", other),
    };
    assert_eq!(elem.kind, HelperKind::Str);
    assert_eq!(elem.mode, Mode::Dec);
    assert!(matches!(body_of(&e, elem), HelperBody::Str));
    // the list's own word is the static sentinel: no store, no free
    assert_eq!(decrement_word(0, 8), DecrementOutcome::Static);
}

#[test]
fn cons_list_decrement_loads_then_frees_then_tail_calls() {
    let mut e = Emitter::new(8, false);
    let n = e.decrement_refcount_layout(&cons_list_of(str_layout())).unwrap();
    assert_eq!(n.kind, HelperKind::RecUnion);
    let str_name = e.decrement_refcount_layout(&str_layout()).unwrap();
    match body_of(&e, n) {
        HelperBody::RecUnion { null_check, switch, cases } => {
            assert!(*null_check);
            assert!(!*switch);
            assert_eq!(cases.len(), 1);
            assert_eq!(cases[0].tag, 0);
            assert_eq!(
                cases[0].steps,
                vec![
                    Step::LoadField(0),
                    Step::LoadRecursive(1),
                    Step::ModifySelf,
                    Step::ModifyField(FieldVisit { index: 0, helper: str_name }),
                    Step::CallSelf { index: 1, tail: true },
                ]
            );
        }
        other => panic!("unexpected body {:?}", other),
    }
    assert_eq!(decrement_word(i64::MIN, 8), DecrementOutcome::Freed);
}

#[test]
fn nullable_unwrapped_checks_null_first() {
    let mut e = Emitter::new(8, false);
    let n = e.decrement_refcount_layout(&cons_list_of(i64_layout())).unwrap();
    match body_of(&e, n) {
        HelperBody::RecUnion { null_check, cases, .. } => {
            assert!(*null_check);
            assert_eq!(
                cases[0].steps,
                vec![Step::LoadRecursive(1), Step::ModifySelf, Step::CallSelf { index: 1, tail: true }]
            );
        }
        other => panic!("unexpected body {:?}", other),
    }
}

#[test]
fn struct_decrement_visits_refcounted_fields_only() {
    let mut e = Emitter::new(8, false);
    let layout = Layout::Struct(vec![str_layout(), i64_layout(), list_of(str_layout())]);
    let n = e.decrement_refcount_layout(&layout).unwrap();
    assert_eq!(n.kind, HelperKind::Struct);
    let str_name = e.decrement_refcount_layout(&str_layout()).unwrap();
    let list_name = e.decrement_refcount_layout(&list_of(str_layout())).unwrap();
    match body_of(&e, n) {
        HelperBody::Struct { fields } => {
            assert_eq!(
                fields,
                &vec![
                    FieldVisit { index: 0, helper: str_name },
                    FieldVisit { index: 2, helper: list_name },
                ]
            );
        }
        other => panic!("unexpected body {:?}", other),
    }
    assert!(matches!(body_of(&e, list_name), HelperBody::List { element: Some(h) } if *h == str_name));
    assert_eq!(e.helpers.len(), 3);
}

#[test]
fn layouts_without_refcounted_data_get_no_helper() {
    let mut e = Emitter::new(8, false);
    let plain = vec![
        i64_layout(),
        Layout::Builtin(Builtin::List(MemoryMode::ByValue, Box::new(str_layout()))),
        Layout::Struct(vec![i64_layout(), i64_layout()]),
        Layout::Closure(vec![i64_layout()], Box::new(i64_layout()), Box::new(i64_layout())),
        Layout::FunctionPointer(vec![str_layout()], Box::new(str_layout())),
        Layout::PhantomEmptyStruct,
        Layout::Union(UnionLayout::NonRecursive(vec![vec![i64_layout()], vec![]])),
    ];
    for l in plain.iter() {
        assert_eq!(e.decrement_refcount_layout(l), None);
        assert_eq!(e.increment_refcount_layout(l), None);
    }
    assert_eq!(e.helpers.len(), 0);
    assert_eq!(e.decrement_helpers.len(), 0);
}

#[test]
fn refcounted_layouts_get_a_helper() {
    let mut e = Emitter::new(4, false);
    let layouts = vec![
        str_layout(),
        list_of(i64_layout()),
        Layout::Builtin(Builtin::Dict(Box::new(i64_layout()), Box::new(i64_layout()))),
        Layout::Struct(vec![i64_layout(), str_layout()]),
        cons_list_of(i64_layout()),
        Layout::Closure(vec![], Box::new(str_layout()), Box::new(i64_layout())),
    ];
    for l in layouts.iter() {
        assert!(e.decrement_refcount_layout(l).is_some());
        assert!(e.increment_refcount_layout(l).is_some());
    }
}

#[test]
fn repeated_requests_emit_one_helper() {
    let mut e = Emitter::new(8, false);
    let layout = Layout::Struct(vec![str_layout(), list_of(str_layout())]);
    let first = e.decrement_refcount_layout(&layout).unwrap();
    let count = e.helpers.len();
    let second = e.decrement_refcount_layout(&layout).unwrap();
    assert_eq!(first, second);
    assert_eq!(e.helpers.len(), count);
    assert_eq!(e.helpers.iter().filter(|h| h.name == first).count(), 1);
    let third = e.decrement_refcount_layout(&Layout::Struct(vec![str_layout(), list_of(str_layout())])).unwrap();
    assert_eq!(first, third);
    assert_eq!(e.helpers.len(), count);
}

#[test]
fn increment_and_decrement_helpers_share_the_id() {
    let mut e = Emitter::new(8, false);
    let layout = list_of(str_layout());
    let dec = e.decrement_refcount_layout(&layout).unwrap();
    let inc = e.increment_refcount_layout(&layout).unwrap();
    assert_eq!(inc.id, dec.id);
    assert_eq!(inc.kind, dec.kind);
    assert_eq!(inc.mode, Mode::Inc);
    let other = e.increment_refcount_layout(&Layout::Struct(vec![str_layout()])).unwrap();
    assert_ne!(other.id, inc.id);
}

#[test]
fn tree_self_calls_are_tail_calls() {
    let mut e = Emitter::new(8, false);
    let tree = Layout::Union(UnionLayout::Recursive(vec![
        vec![],
        vec![Layout::RecursivePointer, str_layout(), Layout::RecursivePointer],
    ]));
    let n = e.decrement_refcount_layout(&tree).unwrap();
    let str_name = e.decrement_refcount_layout(&str_layout()).unwrap();
    match body_of(&e, n) {
        HelperBody::RecUnion { null_check, switch, cases } => {
            assert!(!*null_check);
            assert!(*switch);
            assert_eq!(cases.len(), 1);
            assert_eq!(cases[0].tag, 1);
            assert_eq!(
                cases[0].steps,
                vec![
                    Step::LoadRecursive(0),
                    Step::LoadField(1),
                    Step::LoadRecursive(2),
                    Step::ModifySelf,
                    Step::ModifyField(FieldVisit { index: 1, helper: str_name }),
                    Step::CallSelf { index: 0, tail: true },
                    Step::CallSelf { index: 2, tail: true },
                ]
            );
        }
        other => panic!("unexpected body {:?}", other),
    }
}

#[test]
fn non_recursive_union_cases_cover_refcounted_tags() {
    let mut e = Emitter::new(8, false);
    let layout = Layout::Union(UnionLayout::NonRecursive(vec![
        vec![i64_layout()],
        vec![str_layout(), i64_layout()],
        vec![],
    ]));
    let n = e.decrement_refcount_layout(&layout).unwrap();
    assert_eq!(n.kind, HelperKind::Union);
    let str_name = e.decrement_refcount_layout(&str_layout()).unwrap();
    match body_of(&e, n) {
        HelperBody::Union { cases } => {
            assert_eq!(cases.len(), 1);
            assert_eq!(cases[0].tag, 1);
            assert_eq!(cases[0].fields, vec![FieldVisit { index: 0, helper: str_name }]);
        }
        other => panic!("unexpected body {:?}", other),
    }
    // a non-recursive union has no cell of its own
    assert_eq!(e.helpers.len(), 2);
}

#[test]
fn dict_and_set_visit_refcounted_entries() {
    let mut e = Emitter::new(8, false);
    let dict = Layout::Builtin(Builtin::Dict(Box::new(str_layout()), Box::new(i64_layout())));
    let set = Layout::Builtin(Builtin::SetOf(Box::new(str_layout())));
    let d = e.decrement_refcount_layout(&dict).unwrap();
    let s = e.decrement_refcount_layout(&set).unwrap();
    let str_name = e.decrement_refcount_layout(&str_layout()).unwrap();
    assert_eq!(d.kind, HelperKind::Dict);
    assert_ne!(d.id, s.id);
    assert!(matches!(body_of(&e, d), HelperBody::Dict { key: Some(k), value: None } if *k == str_name));
    assert!(matches!(body_of(&e, s), HelperBody::Dict { key: None, value: Some(v) } if *v == str_name));
}

#[test]
fn closure_is_lowered_to_a_struct_of_its_captures() {
    let mut e = Emitter::new(8, false);
    let captures = Layout::Struct(vec![str_layout()]);
    let closure = Layout::Closure(
        vec![i64_layout()],
        Box::new(Layout::Struct(vec![str_layout()])),
        Box::new(i64_layout()),
    );
    let n = e.increment_refcount_layout(&closure).unwrap();
    assert_eq!(n.kind, HelperKind::Struct);
    let cap = e.increment_refcount_layout(&captures).unwrap();
    match body_of(&e, n) {
        HelperBody::Struct { fields } => {
            assert_eq!(fields, &vec![FieldVisit { index: 1, helper: cap }]);
        }
        other => panic!("unexpected body {:?}", other),
    }
}

#[test]
fn recursive_pointer_inside_struct_refers_to_the_union() {
    let mut e = Emitter::new(8, false);
    let layout = Layout::Union(UnionLayout::NonNullableUnwrapped(vec![
        str_layout(),
        Layout::Struct(vec![i64_layout(), Layout::RecursivePointer]),
    ]));
    let n = e.decrement_refcount_layout(&layout).unwrap();
    let inner = match body_of(&e, n) {
        HelperBody::RecUnion { cases, .. } => match cases[0].steps[3] {
            Step::ModifyField(FieldVisit { index: 0, .. }) => match cases[0].steps[4] {
                Step::ModifyField(FieldVisit { index: 1, helper }) => helper,
                other => panic!("unexpected step {:?}", other),
            },
            other => panic!("unexpected step {:?}", other),
        },
        other => panic!("unexpected body {:?}", other),
    };
    assert_eq!(inner.kind, HelperKind::Struct);
    match body_of(&e, inner) {
        HelperBody::Struct { fields } => assert_eq!(fields, &vec![FieldVisit { index: 1, helper: n }]),
        other => panic!("unexpected body {:?}", other),
    }
    assert!(e.helpers.iter().all(|h| !matches!(h.body, HelperBody::Pending)));
}

#[test]
fn increments_need_no_decrement_helper() {
    let mut e = Emitter::new(8, true);
    e.increment_refcount_layout(&list_of(str_layout())).unwrap();
    assert_eq!(e.decrement_helpers.len(), 0);
    e.decrement_refcount_layout(&list_of(str_layout())).unwrap();
    e.decrement_refcount_layout(&cons_list_of(str_layout())).unwrap();
    assert_eq!(e.decrement_helpers.len(), 1);
    assert_eq!(e.decrement_helpers[0].free_at, FreeAt::Nothing);
}
