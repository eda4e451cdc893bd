use vstd::prelude::*;

verus! {

/// `+`, which starts a simple string.
pub const PLUS: u8 = 43;

/// `-`, which starts a simple error, and the sign of a negative number.
pub const MINUS: u8 = 45;

/// `:`, which starts an integer and parts a verbatim string's format from its text.
pub const COLON: u8 = 58;

/// `$`, which starts a bulk string.
pub const DOLLAR: u8 = 36;

/// `*`, which starts an array.
pub const STAR: u8 = 42;

/// `_`, which starts a null.
pub const UNDERSCORE: u8 = 95;

/// `#`, which starts a boolean.
pub const HASH: u8 = 35;

/// `,`, which starts a double.
pub const COMMA: u8 = 44;

/// `(`, which starts a big number.
pub const PAREN: u8 = 40;

/// `!`, which starts a bulk error.
pub const BANG: u8 = 33;

/// `=`, which starts a verbatim string.
pub const EQUALS: u8 = 61;

/// `~`, which starts a set.
pub const TILDE: u8 = 126;

/// `%`, which starts a map.
pub const PERCENT: u8 = 37;

/// `>`, which starts a push.
pub const GREATER: u8 = 62;

/// `|`, which starts an attribute block.
pub const PIPE: u8 = 124;

/// The digit `1`.
pub const ONE: u8 = 49;

/// The letter `t`, for true.
pub const LETTER_T: u8 = 116;

/// The letter `f`, for false.
pub const LETTER_F: u8 = 102;

} // verus!
