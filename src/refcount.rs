//! The refcount word: a pointer-sized signed integer stored one word before
//! the data of every heap allocation.
//!
//! The most negative value of the word stands for a count of one, each larger
//! negative value for one more, and zero marks a static allocation whose
//! count never changes.
use vstd::prelude::*;
use crate::layout::{Builtin, Layout};

verus! {

/// The word of a static allocation: never freed, never changed.
pub const REFCOUNT_MAX: usize = 0;

/// The pointer widths, in bytes, that a target may have.
pub open spec fn valid_ptr_bytes(ptr_bytes: u32) -> bool {
    ptr_bytes == 1 || ptr_bytes == 2 || ptr_bytes == 4 || ptr_bytes == 8
}

/// Half the range of a word of `ptr_bytes` bytes: its most negative value is
/// `-word_half(ptr_bytes)`.
pub open spec fn word_half(ptr_bytes: u32) -> int {
    if ptr_bytes == 1 {
        0x80
    } else if ptr_bytes == 2 {
        0x8000
    } else if ptr_bytes == 4 {
        0x8000_0000
    } else {
        0x8000_0000_0000_0000
    }
}

/// The number of distinct words of `ptr_bytes` bytes.
pub open spec fn word_modulus(ptr_bytes: u32) -> int {
    2 * word_half(ptr_bytes)
}

/// The word that encodes a count of one: the most negative word.
pub open spec fn word_min(ptr_bytes: u32) -> int {
    -word_half(ptr_bytes)
}

/// A value that a signed word of `ptr_bytes` bytes can hold.
pub open spec fn fits_word(w: int, ptr_bytes: u32) -> bool {
    word_min(ptr_bytes) <= w < word_half(ptr_bytes)
}

/// A refcount word as heap cells hold it: static, or a count of at least one.
pub open spec fn valid_word(w: int, ptr_bytes: u32) -> bool {
    w == 0 || (word_min(ptr_bytes) <= w < 0)
}

/// The count that a non-static word encodes.
pub open spec fn count_of(w: int, ptr_bytes: u32) -> int {
    w - word_min(ptr_bytes) + 1
}

/// The largest count that a word can encode.
pub open spec fn max_count(ptr_bytes: u32) -> int {
    word_half(ptr_bytes)
}

/// The word after adding `amount` to it in its own width, as the inline
/// increment does; a static word stays as it is.
pub open spec fn incremented(w: int, amount: int, ptr_bytes: u32) -> int {
    if w == 0 {
        0
    } else if w + amount >= word_half(ptr_bytes) {
        w + amount - word_modulus(ptr_bytes)
    } else {
        w + amount
    }
}

/// What the shared decrement helper does to a cell.
#[derive(Clone, Copy, Debug, PartialEq, Eq, Structural)]
pub enum DecrementOutcome {
    /// The word is the static sentinel: nothing is written, nothing freed.
    Static,
    /// The count was one: the allocation is freed.
    Freed,
    /// The count was larger: the given word is written back.
    Stored(i64),
}

/// The decrement helper's effect on a word: the signed addition of minus one
/// overflows exactly at the most negative word.
pub open spec fn decremented(w: int, ptr_bytes: u32) -> DecrementOutcome {
    if w == 0 {
        DecrementOutcome::Static
    } else if w == word_min(ptr_bytes) {
        DecrementOutcome::Freed
    } else {
        DecrementOutcome::Stored((w - 1) as i64)
    }
}

/// The word after `k` decrements, or `None` once one of them freed the cell.
pub open spec fn decrement_n(w: int, k: nat, ptr_bytes: u32) -> Option<int>
    decreases k,
{
    if k == 0 {
        Some(w)
    } else {
        match decrement_n(w, (k - 1) as nat, ptr_bytes) {
            Some(p) => match decremented(p, ptr_bytes) {
                DecrementOutcome::Static => Some(p),
                DecrementOutcome::Stored(v) => Some(v as int),
                DecrementOutcome::Freed => None,
            },
            None => None,
        }
    }
}

/// The word that encodes a count of one on a target with `ptr_bytes`-byte
/// pointers.
pub fn refcount_1(ptr_bytes: u32) -> (r: i64)
    requires
        valid_ptr_bytes(ptr_bytes),
    ensures
        r == word_min(ptr_bytes),
{
    if ptr_bytes == 1 {
        -0x80
    } else if ptr_bytes == 2 {
        -0x8000
    } else if ptr_bytes == 4 {
        -0x8000_0000
    } else {
        i64::MIN
    }
}

/// Whether a refcount word encodes a count of exactly one.
pub fn refcount_is_one_comparison(ptr_bytes: u32, refcount: i64) -> (r: bool)
    requires
        valid_ptr_bytes(ptr_bytes),
    ensures
        r == (refcount == word_min(ptr_bytes)),
{
    refcount == refcount_1(ptr_bytes)
}

/// The inline increment: adds `amount` in the word's width unless the word
/// is the static sentinel.
pub fn increment_word(word: i64, amount: u64, ptr_bytes: u32) -> (r: i64)
    requires
        valid_ptr_bytes(ptr_bytes),
        fits_word(word as int, ptr_bytes),
        amount < word_modulus(ptr_bytes),
    ensures
        r == incremented(word as int, amount as int, ptr_bytes),
        fits_word(r as int, ptr_bytes),
{
    if word == REFCOUNT_MAX as i64 {
        return word;
    }
    let half: i128 = if ptr_bytes == 1 {
        0x80
    } else if ptr_bytes == 2 {
        0x8000
    } else if ptr_bytes == 4 {
        0x8000_0000
    } else {
        0x8000_0000_0000_0000
    };
    let sum: i128 = word as i128 + amount as i128;
    if sum >= half {
        (sum - 2 * half) as i64
    } else {
        sum as i64
    }
}

/// The shared decrement helper's decision for one word.
pub fn decrement_word(word: i64, ptr_bytes: u32) -> (r: DecrementOutcome)
    requires
        valid_ptr_bytes(ptr_bytes),
        fits_word(word as int, ptr_bytes),
    ensures
        r == decremented(word as int, ptr_bytes),
{
    if word == REFCOUNT_MAX as i64 {
        DecrementOutcome::Static
    } else if word == refcount_1(ptr_bytes) {
        DecrementOutcome::Freed
    } else {
        DecrementOutcome::Stored(word - 1)
    }
}

/// A valid word stays valid: an increment that keeps the count within the
/// word's range, and a decrement that writes back, both yield valid words.
pub proof fn lemma_word_stays_valid(w: int, amount: int, ptr_bytes: u32)
    requires
        valid_ptr_bytes(ptr_bytes),
        valid_word(w, ptr_bytes),
        0 <= amount,
        w != 0 ==> count_of(w, ptr_bytes) + amount <= max_count(ptr_bytes),
    ensures
        valid_word(incremented(w, amount, ptr_bytes), ptr_bytes),
        decremented(w, ptr_bytes) matches DecrementOutcome::Stored(v) ==> valid_word(
            v as int,
            ptr_bytes,
        ),
{
}

/// On a non-static cell an increment by `amount` adds `amount` to the count,
/// a decrement at a count above one takes one from it, and a decrement at a
/// count of one frees the cell.
pub proof fn lemma_counts(w: int, amount: int, ptr_bytes: u32)
    requires
        valid_ptr_bytes(ptr_bytes),
        valid_word(w, ptr_bytes),
        w != 0,
        0 <= amount,
        count_of(w, ptr_bytes) + amount <= max_count(ptr_bytes),
    ensures
        incremented(w, amount, ptr_bytes) != 0,
        count_of(incremented(w, amount, ptr_bytes), ptr_bytes) == count_of(w, ptr_bytes) + amount,
        count_of(w, ptr_bytes) > 1 ==> (decremented(w, ptr_bytes) matches DecrementOutcome::Stored(
            v,
        ) && v != 0 && count_of(v as int, ptr_bytes) == count_of(w, ptr_bytes) - 1),
        count_of(w, ptr_bytes) == 1 ==> decremented(w, ptr_bytes) == DecrementOutcome::Freed,
{
}

/// Increment and decrement leave a static cell's word as it is and never
/// free it.
pub proof fn lemma_static_is_untouched(amount: int, ptr_bytes: u32)
    ensures
        incremented(0, amount, ptr_bytes) == 0,
        decremented(0, ptr_bytes) == DecrementOutcome::Static,
{
}

/// An increment by `n` followed by `n` decrements restores the word.
pub proof fn lemma_increment_then_decrements(w: int, n: nat, ptr_bytes: u32)
    requires
        valid_ptr_bytes(ptr_bytes),
        valid_word(w, ptr_bytes),
        w != 0 ==> count_of(w, ptr_bytes) + n <= max_count(ptr_bytes),
    ensures
        decrement_n(incremented(w, n as int, ptr_bytes), n, ptr_bytes) == Some(w),
{
    lemma_decrements_from(w, n, n, ptr_bytes);
}

proof fn lemma_decrements_from(w: int, n: nat, k: nat, ptr_bytes: u32)
    requires
        valid_ptr_bytes(ptr_bytes),
        valid_word(w, ptr_bytes),
        w != 0 ==> count_of(w, ptr_bytes) + n <= max_count(ptr_bytes),
        k <= n,
    ensures
        decrement_n(incremented(w, n as int, ptr_bytes), k, ptr_bytes) == Some(
            if w == 0 {
                0
            } else {
                w + n - k
            },
        ),
    decreases k,
{
    if k > 0 {
        lemma_decrements_from(w, n, (k - 1) as nat, ptr_bytes);
    }
}

/// Whether a string's length word, read as a signed word of `ptr_bytes`
/// bytes, is positive: small strings set the high bit, and only a string
/// that is neither small nor empty has a heap cell.
pub fn is_big_and_non_empty(len: u64, ptr_bytes: u32) -> (r: bool)
    requires
        valid_ptr_bytes(ptr_bytes),
        len < word_modulus(ptr_bytes),
    ensures
        r == (0 < len < word_half(ptr_bytes)),
{
    let half: u64 = if ptr_bytes == 1 {
        0x80
    } else if ptr_bytes == 2 {
        0x8000
    } else if ptr_bytes == 4 {
        0x8000_0000
    } else {
        0x8000_0000_0000_0000
    };
    0 < len && len < half
}



/// How many bytes before a value's data its refcount word starts: one word
/// for lists, strings and union cells, else the larger of a word and the
/// value's stack size.
pub open spec fn refcount_offset_spec(layout: Layout, ptr_bytes: u32, stack_size: u32) -> u64 {
    match layout {
        Layout::Builtin(Builtin::List(_, _)) | Layout::Builtin(Builtin::Str) => ptr_bytes as u64,
        Layout::RecursivePointer | Layout::Union(_) => ptr_bytes as u64,
        _ => if stack_size > ptr_bytes {
            stack_size as u64
        } else {
            ptr_bytes as u64
        },
    }
}

/// The offset of the refcount word before the data of a value of `layout`,
/// given the value's stack size on the target.
pub fn refcount_offset(layout: &Layout, ptr_bytes: u32, stack_size: u32) -> (r: u64)
    requires
        valid_ptr_bytes(ptr_bytes),
    ensures
        r == refcount_offset_spec(*layout, ptr_bytes, stack_size),
{
    match layout {
        Layout::Builtin(Builtin::List(_, _)) | Layout::Builtin(Builtin::Str) => ptr_bytes as u64,
        Layout::RecursivePointer | Layout::Union(_) => ptr_bytes as u64,
        _ => if stack_size > ptr_bytes {
            stack_size as u64
        } else {
            ptr_bytes as u64
        },
    }
}

} // verus!
