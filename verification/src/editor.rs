//! The editors' decisions around loading, restoring and picking saves.

use vstd::prelude::*;
use crate::json_fmt::{decimal, int_text, push_decimal, push_signed};
use crate::text::{push_str, to_string};

verus! {

/// The status after loading a characters file.
pub open spec fn loaded_text(count: nat) -> Seq<char> {
    "Loaded "@ + decimal(count) + " character(s)."@
}

/// The status after loading a characters file of `count` characters.
pub fn loaded_message(count: usize) -> (r: String)
    ensures
        r@ == loaded_text(count as nat),
{
    let mut out = to_string("Loaded ");
    push_decimal(&mut out, count as u64);
    push_str(&mut out, " character(s).");
    out
}

/// The status after restoring the characters of this session.
pub open spec fn restored_text(count: nat) -> Seq<char> {
    "Restored "@ + decimal(count) + " character(s) from this session."@
}

/// The status after restoring `count` characters of this session.
pub fn restored_message(count: usize) -> (r: String)
    ensures
        r@ == restored_text(count as nat),
{
    let mut out = to_string("Restored ");
    push_decimal(&mut out, count as u64);
    push_str(&mut out, " character(s) from this session.");
    out
}

/// What the restore offer says is waiting.
pub open spec fn restore_summary_text(count: nat) -> Seq<char> {
    decimal(count) + " character(s)"@
}

/// What the restore offer says is waiting: `count` characters.
pub fn restore_summary(count: usize) -> (r: String)
    ensures
        r@ == restore_summary_text(count as nat),
{
    let mut out = String::new();
    push_decimal(&mut out, count as u64);
    push_str(&mut out, " character(s)");
    out
}

/// The character selected after a list is opened: the first, if any.
pub fn first_selection(count: usize) -> (r: Option<usize>)
    ensures
        r == (if count == 0 {
            None::<usize>
        } else {
            Some(0usize)
        }),
{
    if count == 0 {
        None
    } else {
        Some(0)
    }
}

/// The label of a character's tab.
pub open spec fn tab_text(name: Seq<char>, slot: int) -> Seq<char> {
    name + " (slot "@ + int_text(slot) + ")"@
}

/// The label of a character's tab: its name and slot.
pub fn tab_label(name: &str, slot: i64) -> (r: String)
    ensures
        r@ == tab_text(name@, slot as int),
{
    let mut out = to_string(name);
    push_str(&mut out, " (slot ");
    push_signed(&mut out, slot);
    push_str(&mut out, ")");
    out
}

/// Whether to offer restoring this session's work: only while nothing is
/// open and there is something to restore.
pub fn shows_restore(loaded: bool, restorable: bool) -> (r: bool)
    ensures
        r == (!loaded && restorable),
{
    !loaded && restorable
}

/// Whether the character tabs are shown: for more than one character.
pub fn shows_character_tabs(count: usize) -> (r: bool)
    ensures
        r == (count > 1),
{
    count > 1
}

} // verus!
