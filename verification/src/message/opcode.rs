//! The opcodes of actions.

use vstd::prelude::*;

verus! {

/// Replaces the document.
pub const OPCODE_SNAPSHOT: i128 = 0;

/// Inserts a value.
pub const OPCODE_ADD: i128 = 1;

/// Removes a value.
pub const OPCODE_REMOVE: i128 = 2;

/// Replaces a value.
pub const OPCODE_REPLACE: i128 = 3;

/// Appends to a string.
pub const OPCODE_STRING_APPEND: i128 = 4;

/// Prepends to a string.
pub const OPCODE_STRING_PREPEND: i128 = 5;

/// Copies a value.
pub const OPCODE_COPY: i128 = 6;

/// Moves a value.
pub const OPCODE_MOVE: i128 = 7;

/// Edits a string.
pub const OPCODE_STRING_PATCH: i128 = 8;

/// Edits an array.
pub const OPCODE_ARRAY_PATCH: i128 = 10;

} // verus!
