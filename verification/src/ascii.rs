//! Named ASCII byte values used by the parser and the filename policy.

use vstd::prelude::*;

verus! {

pub const SPACE: u8 = 32;
pub const TAB: u8 = 9;
pub const CR: u8 = 13;
pub const LF: u8 = 10;
pub const LANGLE: u8 = 60;
pub const RANGLE: u8 = 62;
pub const SLASH: u8 = 47;
pub const COLON: u8 = 58;
pub const HYPHEN: u8 = 45;
pub const UNDERSCORE: u8 = 95;
pub const DQUOTE: u8 = 34;
pub const SQUOTE: u8 = 39;
pub const STAR: u8 = 42;
pub const DOT: u8 = 46;
pub const EQUALS: u8 = 61;
pub const AMP: u8 = 38;
pub const SEMI: u8 = 59;
pub const HASH: u8 = 35;
pub const DIGIT_0: u8 = 48;
pub const DIGIT_3: u8 = 51;
pub const L_A: u8 = 97;
pub const L_M: u8 = 109;
pub const L_P: u8 = 112;
pub const L_R: u8 = 114;
pub const L_T: u8 = 116;

} // verus!
