//! The helpers that the emitter puts in a compilation module, described as
//! plain data: which values a helper visits, in which order, and which other
//! helper it calls for each of them.
use vstd::prelude::*;
use crate::refcount::valid_ptr_bytes;

verus! {

/// Whether a helper increments or decrements.
#[derive(Clone, Copy, Debug, PartialEq, Eq, Structural)]
pub enum Mode {
    /// Takes the value and an amount, adds the amount to every cell reached.
    Inc,
    /// Takes the value, takes one from every cell reached, frees at zero.
    Dec,
}

/// The layout family a helper was emitted for.
#[derive(Clone, Copy, Debug, PartialEq, Eq, Structural)]
pub enum HelperKind {
    List,
    Str,
    Dict,
    Struct,
    Union,
    RecUnion,
}

/// A helper's name: its mode, its layout family and the layout's id. The
/// increment and decrement helpers of one layout carry the same id.
#[derive(Clone, Copy, Debug, PartialEq, Eq, Structural)]
pub struct HelperName {
    pub mode: Mode,
    pub kind: HelperKind,
    pub id: u64,
}

/// A call of `helper` on the field at `index` of the value.
#[derive(Clone, Copy, Debug, PartialEq, Eq, Structural)]
pub struct FieldVisit {
    pub index: u64,
    pub helper: HelperName,
}

/// One step of a recursive union's case, in the order the emitted code runs.
#[derive(Clone, Copy, Debug, PartialEq, Eq, Structural)]
pub enum Step {
    /// Load the recursive pointer stored in a field, before the cell may go.
    LoadRecursive(u64),
    /// Load a refcounted field, before the cell may go.
    LoadField(u64),
    /// Increment or decrement the cell itself; a decrement may free it.
    ModifySelf,
    /// Call a helper on a loaded field.
    ModifyField(FieldVisit),
    /// Call this same helper on a loaded recursive pointer.
    CallSelf { index: u64, tail: bool },
}

/// The case of a non-recursive union's switch for one tag.
#[derive(Debug)]
pub struct UnionCase {
    pub tag: u64,
    pub fields: Vec<FieldVisit>,
}

/// The case of a recursive union's switch for one tag.
#[derive(Debug)]
pub struct RecCase {
    pub tag: u64,
    pub steps: Vec<Step>,
}

/// What a helper does to its argument.
#[derive(Debug)]
#[allow(inconsistent_fields)]
pub enum HelperBody {
    /// Declared, its body not emitted yet.
    Pending,
    /// A list: nothing when empty; else `element` on each element, when
    /// given, then the list's own cell.
    List { element: Option<HelperName> },
    /// A string: nothing when its length read as signed is not positive;
    /// else its cell.
    Str,
    /// A dict or set: nothing when empty; else `key` and `value` on each
    /// entry, where given, then its cell.
    Dict { key: Option<HelperName>, value: Option<HelperName> },
    /// A struct: each visit in turn. A struct has no cell of its own.
    Struct { fields: Vec<FieldVisit> },
    /// A non-recursive union: a switch on the tag; tags without a case do
    /// nothing.
    Union { cases: Vec<UnionCase> },
    /// A recursive union: return on null when `null_check`; then the case
    /// of the tag (read from the cell only when `switch`), or, for tags
    /// without a case, the cell alone.
    RecUnion { null_check: bool, switch: bool, cases: Vec<RecCase> },
}

/// A helper of the module.
#[derive(Debug)]
pub struct Helper {
    pub name: HelperName,
    pub body: HelperBody,
}

/// Where the shared decrement helper frees a cell whose count reached zero.
#[derive(Clone, Copy, Debug, PartialEq, Eq, Structural)]
pub enum FreeAt {
    /// The refcount word is the start of the allocation.
    RefcountWord,
    /// The allocation starts one word before the refcount word.
    WordBefore,
    /// Leak-checking builds free nothing.
    Nothing,
}

/// The shared decrement helper for one alignment class.
#[derive(Clone, Copy, Debug, PartialEq, Eq, Structural)]
pub struct DecrementHelper {
    pub alignment: u32,
    pub free_at: FreeAt,
}

/// Where the decrement helper of an alignment class frees.
pub open spec fn free_at_spec(alignment: u32, ptr_bytes: u32, leak: bool) -> FreeAt {
    if leak {
        FreeAt::Nothing
    } else if alignment == ptr_bytes {
        FreeAt::RefcountWord
    } else {
        FreeAt::WordBefore
    }
}

/// The body of the shared decrement helper: an allocation aligned to one
/// word starts at its refcount word, one aligned to two words a word
/// earlier.
pub fn build_decrement_helper(alignment: u32, ptr_bytes: u32, leak: bool) -> (r: DecrementHelper)
    requires
        valid_ptr_bytes(ptr_bytes),
        alignment == ptr_bytes || alignment == 2 * ptr_bytes,
    ensures
        r.alignment == alignment,
        r.free_at == free_at_spec(alignment, ptr_bytes, leak),
{
    let free_at = if leak {
        FreeAt::Nothing
    } else if alignment == ptr_bytes {
        FreeAt::RefcountWord
    } else {
        FreeAt::WordBefore
    };
    DecrementHelper { alignment, free_at }
}

} // verus!
