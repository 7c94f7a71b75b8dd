//! SPT script text: walk the command stream the way the interpreter does, and
//! write English back without moving a single existing byte.
//!
//! The patched runtime treats SPT addresses as unsigned 16-bit file-relative
//! offsets; the retail game sign-extends them.

use vstd::prelude::*;
use std::collections::HashMap;
use crate::bytes::{spec_u16_at, u16at, be16_seq, be16_bytes, push_be16, lemma_be16_seq_len, lemma_be16_seq_index};
use crate::sorted_map::SortedMap;
use crate::ppc::sorted_entries;
pub use crate::pack::{pack, verify, Packed, Refusal, RefusalReason, Replacement};
use crate::text::{hex, decimal, hex_list, push_str, push_hex, push_dec, push_hex_list, string_of, chars_of, append_chars};

verus! {

pub const REACH: usize = 0x10000;
pub const TERMINATOR: u16 = 0xF800;
pub const END: u16 = 0xFFFF;
pub const PAD_OP: u16 = 0xFFFE;
/// printable glyphs are 0x0000-0x03FF: only four font page tables exist
pub const GLYPH_MAX: u16 = 0x03FF;
/// every u16@0 in the corpus is 32-aligned
pub const ALIGN: usize = 32;
/// the 0x12-byte name field: 8 glyphs plus the 0xF800.
pub const NAME_CAP: usize = 8;
/// 0x0B18 writes words 1..32 in place and never writes a terminator
pub const B18_WORDS: usize = 34;
pub const MAX_TABLE: usize = 512;
pub const MAX_STR: usize = 512;
/// FUN_800DDB84 expands a complete string into a 512-byte stack buffer. The
/// terminator needs the final word, leaving room for at most 255 source codes.
pub const EXPANSION_CAP: usize = 255;
pub const DECODE_LIMIT: usize = 1024;
/// FUN_80014E48 splits a code as family = code & 0xF800, argument = code & 0x7FF
pub const FAMILY: u16 = 0xF800;
pub const ARG: u16 = 0x07FF;
/// 0x0307 (setObjectText) word 2: the base of an array of u16 string offsets
pub const OBJ_TEXT: u16 = 0x0307;
pub const OBJ_TEXT_WORD: usize = 2;
pub const RET: u16 = 0x0807;
/// 0x0806: opcode + target, pushed as the return address
pub const CALL_LEN: usize = 2;

/// the seven families that consume a positional variadic argument of showTextAsBox
pub open spec fn is_variadic(f: u16) -> bool {
    f == 0x1000 || f == 0x1800 || f == 0x7800 || f == 0x2000 || f == 0x2800 || f == 0x6800 || f == 0xE800
}

/// arg > 31 overruns the 64-byte scratch at 0x801B7440
pub open spec fn is_num_field(f: u16) -> bool {
    f == 0x1000 || f == 0x1800 || f == 0x7800
}

/// arg > 30 is silently truncated by FUN_800177BC
pub open spec fn is_pad_field(f: u16) -> bool {
    f == 0x2000 || f == 0x2800 || f == 0x6800
}

/// opcode -> word index holding a direct u16 text offset
pub open spec fn spec_text_operand(op: u16) -> Option<usize> {
    match op {
        0x0201 => Some(6usize),
        0x0202 => Some(6usize),
        0x0203 => Some(4usize),
        0x0204 => Some(8usize),
        0x020d => Some(8usize),
        0x0218 => Some(7usize),
        0x0303 => Some(2usize),
        0x0306 => Some(3usize),
        0x0701 => Some(11usize),
        0x0703 => Some(3usize),
        _ => None,
    }
}

pub fn text_operand(op: u16) -> (r: Option<usize>)
    ensures
        r == spec_text_operand(op),
{
    match op {
        0x0201 => Some(6),
        0x0202 => Some(6),
        0x0203 => Some(4),
        0x0204 => Some(8),
        0x020d => Some(8),
        0x0218 => Some(7),
        0x0303 => Some(2),
        0x0306 => Some(3),
        0x0701 => Some(11),
        0x0703 => Some(3),
        _ => None,
    }
}

/// unconditional jumps: opcode -> operand word holding the u16 target
pub open spec fn spec_goto(op: u16) -> Option<usize> {
    match op {
        0x0302 => Some(2usize),
        0x0801 => Some(1usize),
        0x0806 => Some(1usize),
        0x080b => Some(2usize),
        _ => None,
    }
}

pub fn goto(op: u16) -> (r: Option<usize>)
    ensures
        r == spec_goto(op),
{
    match op {
        0x0302 => Some(2),
        0x0801 => Some(1),
        0x0806 => Some(1),
        0x080b => Some(2),
        _ => None,
    }
}

/// conditional: opcode -> (target word, fallthrough length in words)
pub open spec fn spec_branch(op: u16) -> Option<(usize, usize)> {
    if op == 0x0402 || op == 0x0403 || op == 0x0804 || op == 0x0805 {
        Some((2usize, 3usize))
    } else {
        None
    }
}

pub fn branch(op: u16) -> (r: Option<(usize, usize)>)
    ensures
        r == spec_branch(op),
{
    if op == 0x0402 || op == 0x0403 || op == 0x0804 || op == 0x0805 {
        Some((2, 3))
    } else {
        None
    }
}

/// jumps through an inline array of u16 targets whose element count is in
/// neither the command nor the binary
pub open spec fn is_jump_array(op: u16) -> bool {
    op == 0x0302 || op == 0x080b
}

/// Length in 16-bit words, including the opcode, of the commands whose length
/// is constant (0x0807 is a stack pop).
pub open spec fn spec_length(op: u16) -> Option<u16> {
    match op {
        0x0100 => Some(2u16),
        0x0101 => Some(1u16),
        0x0102 => Some(1u16),
        0x0103 => Some(7u16),
        0x0104 => Some(3u16),
        0x0105 => Some(4u16),
        0x0106 => Some(3u16),
        0x0107 => Some(3u16),
        0x0108 => Some(2u16),
        0x0109 => Some(2u16),
        0x010a => Some(2u16),
        0x010b => Some(3u16),
        0x010c => Some(8u16),
        0x010d => Some(3u16),
        0x010e => Some(3u16),
        0x010f => Some(3u16),
        0x0110 => Some(7u16),
        0x0111 => Some(3u16),
        0x0112 => Some(3u16),
        0x0113 => Some(3u16),
        0x0114 => Some(3u16),
        0x0115 => Some(4u16),
        0x0116 => Some(3u16),
        0x0117 => Some(6u16),
        0x0118 => Some(2u16),
        0x0119 => Some(3u16),
        0x011a => Some(3u16),
        0x011b => Some(5u16),
        0x011c => Some(2u16),
        0x011d => Some(2u16),
        0x011e => Some(4u16),
        0x011f => Some(2u16),
        0x0120 => Some(2u16),
        0x0121 => Some(2u16),
        0x0122 => Some(2u16),
        0x0200 => Some(7u16),
        0x0201 => Some(7u16),
        0x0202 => Some(7u16),
        0x0203 => Some(7u16),
        0x0204 => Some(9u16),
        0x0205 => Some(6u16),
        0x0206 => Some(2u16),
        0x0207 => Some(15u16),
        0x0208 => Some(13u16),
        0x0209 => Some(4u16),
        0x020a => Some(4u16),
        0x020b => Some(4u16),
        0x020c => Some(3u16),
        0x020d => Some(10u16),
        0x020e => Some(3u16),
        0x020f => Some(3u16),
        0x0210 => Some(4u16),
        0x0211 => Some(7u16),
        0x0212 => Some(3u16),
        0x0213 => Some(4u16),
        0x0214 => Some(4u16),
        0x0215 => Some(4u16),
        0x0216 => Some(5u16),
        0x0217 => Some(6u16),
        0x0218 => Some(9u16),
        0x0219 => Some(8u16),
        0x021a => Some(3u16),
        0x021b => Some(3u16),
        0x021c => Some(3u16),
        0x021d => Some(3u16),
        0x021e => Some(12u16),
        0x0300 => Some(2u16),
        0x0301 => Some(3u16),
        0x0303 => Some(3u16),
        0x0304 => Some(3u16),
        0x0305 => Some(3u16),
        0x0306 => Some(4u16),
        0x0307 => Some(4u16),
        0x0308 => Some(2u16),
        0x0400 => Some(2u16),
        0x0401 => Some(2u16),
        0x0500 => Some(1u16),
        0x0501 => Some(1u16),
        0x0502 => Some(6u16),
        0x0503 => Some(1u16),
        0x0504 => Some(1u16),
        0x0505 => Some(3u16),
        0x0601 => Some(2u16),
        0x0602 => Some(2u16),
        0x0603 => Some(3u16),
        0x0604 => Some(3u16),
        0x0605 => Some(3u16),
        0x0606 => Some(2u16),
        0x0700 => Some(1u16),
        0x0701 => Some(15u16),
        0x0702 => Some(14u16),
        0x0703 => Some(4u16),
        0x0704 => Some(2u16),
        0x0705 => Some(11u16),
        0x0706 => Some(2u16),
        0x0707 => Some(11u16),
        0x0708 => Some(3u16),
        0x0800 => Some(2u16),
        0x0802 => Some(2u16),
        0x0803 => Some(2u16),
        0x0807 => Some(96u16),
        0x0808 => Some(3u16),
        0x0809 => Some(3u16),
        0x080a => Some(3u16),
        0x080c => Some(3u16),
        0x080d => Some(3u16),
        0x080e => Some(3u16),
        0x080f => Some(3u16),
        0x0810 => Some(1u16),
        0x0811 => Some(2u16),
        0x0812 => Some(2u16),
        0x0813 => Some(4u16),
        0x0814 => Some(3u16),
        0x0815 => Some(6u16),
        0x0816 => Some(2u16),
        0x0900 => Some(3u16),
        0x0901 => Some(1u16),
        0x0902 => Some(1u16),
        0x0903 => Some(1u16),
        0x0904 => Some(1u16),
        0x0905 => Some(1u16),
        0x0906 => Some(1u16),
        0x0907 => Some(2u16),
        0x0908 => Some(1u16),
        0x0909 => Some(1u16),
        0x0a00 => Some(2u16),
        0x0a01 => Some(2u16),
        0x0a02 => Some(2u16),
        0x0a03 => Some(1u16),
        0x0a04 => Some(2u16),
        0x0a05 => Some(3u16),
        0x0a06 => Some(1u16),
        0x0a07 => Some(1u16),
        0x0a08 => Some(1u16),
        0x0a09 => Some(2u16),
        0x0a0a => Some(1u16),
        0x0a0b => Some(1u16),
        0x0a0c => Some(1u16),
        0x0a0d => Some(1u16),
        0x0a0e => Some(1u16),
        0x0a0f => Some(2u16),
        0x0a10 => Some(1u16),
        0x0a11 => Some(2u16),
        0x0b00 => Some(2u16),
        0x0b01 => Some(4u16),
        0x0b02 => Some(4u16),
        0x0b03 => Some(2u16),
        0x0b04 => Some(1u16),
        0x0b05 => Some(1u16),
        0x0b07 => Some(1u16),
        0x0b08 => Some(5u16),
        0x0b09 => Some(1u16),
        0x0b0a => Some(3u16),
        0x0b0b => Some(3u16),
        0x0b0c => Some(2u16),
        0x0b0d => Some(2u16),
        0x0b0e => Some(2u16),
        0x0b0f => Some(1u16),
        0x0b10 => Some(2u16),
        0x0b11 => Some(1u16),
        0x0b12 => Some(1u16),
        0x0b13 => Some(2u16),
        0x0b14 => Some(1u16),
        0x0b15 => Some(1u16),
        0x0b16 => Some(2u16),
        0x0b17 => Some(3u16),
        0x0b18 => Some(2u16),
        0x0b19 => Some(3u16),
        0x0b1a => Some(1u16),
        0x0b1b => Some(2u16),
        0x0b1c => Some(1u16),
        0x0b1d => Some(3u16),
        0x0b1e => Some(5u16),
        0x0b1f => Some(1u16),
        0x0b20 => Some(3u16),
        0x0b21 => Some(3u16),
        0x0b22 => Some(2u16),
        0x0b23 => Some(2u16),
        0x0b24 => Some(2u16),
        0x0b25 => Some(1u16),
        0x0b26 => Some(1u16),
        0x0b27 => Some(3u16),
        0x0b28 => Some(2u16),
        0x0b29 => Some(1u16),
        0x0b2a => Some(2u16),
        0x0b2b => Some(2u16),
        0x0b2c => Some(2u16),
        0x0b2d => Some(2u16),
        0x0b2e => Some(1u16),
        0x0b2f => Some(1u16),
        0x0b30 => Some(3u16),
        0x0b31 => Some(2u16),
        0x0c00 => Some(4u16),
        0x0c01 => Some(4u16),
        0x0c02 => Some(2u16),
        0x0c03 => Some(2u16),
        0x0c04 => Some(2u16),
        0x0d00 => Some(2u16),
        0x0d01 => Some(2u16),
        0x0d02 => Some(2u16),
        0x0d03 => Some(1u16),
        0x0d04 => Some(1u16),
        0x0d05 => Some(1u16),
        0x0d06 => Some(2u16),
        0x0d07 => Some(2u16),
        0x0d08 => Some(2u16),
        0x0d09 => Some(2u16),
        0x0d0a => Some(6u16),
        0x0d0b => Some(5u16),
        0x0d0c => Some(2u16),
        0x0d0d => Some(1u16),
        0x0d0e => Some(1u16),
        0x0d0f => Some(1u16),
        0x0d10 => Some(1u16),
        0x0d11 => Some(1u16),
        0x0d12 => Some(1u16),
        0x0e00 => Some(3u16),
        0x0e01 => Some(5u16),
        0x0e02 => Some(5u16),
        0x0e03 => Some(5u16),
        0x0e04 => Some(3u16),
        0x0e05 => Some(2u16),
        0x0e06 => Some(9u16),
        0x0e07 => Some(3u16),
        0x0e08 => Some(8u16),
        0x0e09 => Some(3u16),
        0x0e0a => Some(3u16),
        0x0e0b => Some(8u16),
        0x0f00 => Some(5u16),
        0x0f01 => Some(5u16),
        0x0f02 => Some(3u16),
        0x0f03 => Some(1u16),
        0x0f04 => Some(11u16),
        0x0f05 => Some(11u16),
        0x0f06 => Some(1u16),
        0x0f07 => Some(1u16),
        0x0f08 => Some(1u16),
        0x0f09 => Some(1u16),
        0x0f0a => Some(3u16),
        0x0f0b => Some(1u16),
        0x0f0c => Some(1u16),
        0x0f0d => Some(1u16),
        0x0f0e => Some(1u16),
        0x0f0f => Some(1u16),
        0x0f10 => Some(2u16),
        0x0f11 => Some(1u16),
        0x0f12 => Some(1u16),
        0x0f13 => Some(5u16),
        0x0f14 => Some(2u16),
        0x0f15 => Some(4u16),
        0x0f16 => Some(1u16),
        0x0f17 => Some(3u16),
        0x0f18 => Some(3u16),
        0x0f19 => Some(1u16),
        0x0f1a => Some(1u16),
        0x0f1b => Some(1u16),
        0x0f1c => Some(3u16),
        0x0f1d => Some(1u16),
        0x0f1e => Some(1u16),
        0x1000 => Some(2u16),
        0x1001 => Some(2u16),
        0x1002 => Some(1u16),
        0x1003 => Some(2u16),
        0x1004 => Some(3u16),
        0x1005 => Some(3u16),
        0x1007 => Some(1u16),
        0x100d => Some(3u16),
        0x100e => Some(2u16),
        0x1011 => Some(2u16),
        0x1012 => Some(1u16),
        0x1013 => Some(3u16),
        0x1100 => Some(2u16),
        0x1101 => Some(2u16),
        0x1102 => Some(2u16),
        0x1103 => Some(1u16),
        0x1104 => Some(1u16),
        0x1105 => Some(1u16),
        0x1106 => Some(2u16),
        0x1107 => Some(2u16),
        0x1108 => Some(1u16),
        0x1109 => Some(1u16),
        0x110a => Some(2u16),
        0x110b => Some(2u16),
        0x110c => Some(2u16),
        0x110d => Some(3u16),
        0x110e => Some(2u16),
        0x110f => Some(1u16),
        0x1110 => Some(2u16),
        _ => None,
    }
}

pub fn lookup(op: u16) -> (r: Option<u16>)
    ensures
        r == spec_length(op),
{
    match op {
        0x0100 => Some(2),
        0x0101 => Some(1),
        0x0102 => Some(1),
        0x0103 => Some(7),
        0x0104 => Some(3),
        0x0105 => Some(4),
        0x0106 => Some(3),
        0x0107 => Some(3),
        0x0108 => Some(2),
        0x0109 => Some(2),
        0x010a => Some(2),
        0x010b => Some(3),
        0x010c => Some(8),
        0x010d => Some(3),
        0x010e => Some(3),
        0x010f => Some(3),
        0x0110 => Some(7),
        0x0111 => Some(3),
        0x0112 => Some(3),
        0x0113 => Some(3),
        0x0114 => Some(3),
        0x0115 => Some(4),
        0x0116 => Some(3),
        0x0117 => Some(6),
        0x0118 => Some(2),
        0x0119 => Some(3),
        0x011a => Some(3),
        0x011b => Some(5),
        0x011c => Some(2),
        0x011d => Some(2),
        0x011e => Some(4),
        0x011f => Some(2),
        0x0120 => Some(2),
        0x0121 => Some(2),
        0x0122 => Some(2),
        0x0200 => Some(7),
        0x0201 => Some(7),
        0x0202 => Some(7),
        0x0203 => Some(7),
        0x0204 => Some(9),
        0x0205 => Some(6),
        0x0206 => Some(2),
        0x0207 => Some(15),
        0x0208 => Some(13),
        0x0209 => Some(4),
        0x020a => Some(4),
        0x020b => Some(4),
        0x020c => Some(3),
        0x020d => Some(10),
        0x020e => Some(3),
        0x020f => Some(3),
        0x0210 => Some(4),
        0x0211 => Some(7),
        0x0212 => Some(3),
        0x0213 => Some(4),
        0x0214 => Some(4),
        0x0215 => Some(4),
        0x0216 => Some(5),
        0x0217 => Some(6),
        0x0218 => Some(9),
        0x0219 => Some(8),
        0x021a => Some(3),
        0x021b => Some(3),
        0x021c => Some(3),
        0x021d => Some(3),
        0x021e => Some(12),
        0x0300 => Some(2),
        0x0301 => Some(3),
        0x0303 => Some(3),
        0x0304 => Some(3),
        0x0305 => Some(3),
        0x0306 => Some(4),
        0x0307 => Some(4),
        0x0308 => Some(2),
        0x0400 => Some(2),
        0x0401 => Some(2),
        0x0500 => Some(1),
        0x0501 => Some(1),
        0x0502 => Some(6),
        0x0503 => Some(1),
        0x0504 => Some(1),
        0x0505 => Some(3),
        0x0601 => Some(2),
        0x0602 => Some(2),
        0x0603 => Some(3),
        0x0604 => Some(3),
        0x0605 => Some(3),
        0x0606 => Some(2),
        0x0700 => Some(1),
        0x0701 => Some(15),
        0x0702 => Some(14),
        0x0703 => Some(4),
        0x0704 => Some(2),
        0x0705 => Some(11),
        0x0706 => Some(2),
        0x0707 => Some(11),
        0x0708 => Some(3),
        0x0800 => Some(2),
        0x0802 => Some(2),
        0x0803 => Some(2),
        0x0807 => Some(96),
        0x0808 => Some(3),
        0x0809 => Some(3),
        0x080a => Some(3),
        0x080c => Some(3),
        0x080d => Some(3),
        0x080e => Some(3),
        0x080f => Some(3),
        0x0810 => Some(1),
        0x0811 => Some(2),
        0x0812 => Some(2),
        0x0813 => Some(4),
        0x0814 => Some(3),
        0x0815 => Some(6),
        0x0816 => Some(2),
        0x0900 => Some(3),
        0x0901 => Some(1),
        0x0902 => Some(1),
        0x0903 => Some(1),
        0x0904 => Some(1),
        0x0905 => Some(1),
        0x0906 => Some(1),
        0x0907 => Some(2),
        0x0908 => Some(1),
        0x0909 => Some(1),
        0x0a00 => Some(2),
        0x0a01 => Some(2),
        0x0a02 => Some(2),
        0x0a03 => Some(1),
        0x0a04 => Some(2),
        0x0a05 => Some(3),
        0x0a06 => Some(1),
        0x0a07 => Some(1),
        0x0a08 => Some(1),
        0x0a09 => Some(2),
        0x0a0a => Some(1),
        0x0a0b => Some(1),
        0x0a0c => Some(1),
        0x0a0d => Some(1),
        0x0a0e => Some(1),
        0x0a0f => Some(2),
        0x0a10 => Some(1),
        0x0a11 => Some(2),
        0x0b00 => Some(2),
        0x0b01 => Some(4),
        0x0b02 => Some(4),
        0x0b03 => Some(2),
        0x0b04 => Some(1),
        0x0b05 => Some(1),
        0x0b07 => Some(1),
        0x0b08 => Some(5),
        0x0b09 => Some(1),
        0x0b0a => Some(3),
        0x0b0b => Some(3),
        0x0b0c => Some(2),
        0x0b0d => Some(2),
        0x0b0e => Some(2),
        0x0b0f => Some(1),
        0x0b10 => Some(2),
        0x0b11 => Some(1),
        0x0b12 => Some(1),
        0x0b13 => Some(2),
        0x0b14 => Some(1),
        0x0b15 => Some(1),
        0x0b16 => Some(2),
        0x0b17 => Some(3),
        0x0b18 => Some(2),
        0x0b19 => Some(3),
        0x0b1a => Some(1),
        0x0b1b => Some(2),
        0x0b1c => Some(1),
        0x0b1d => Some(3),
        0x0b1e => Some(5),
        0x0b1f => Some(1),
        0x0b20 => Some(3),
        0x0b21 => Some(3),
        0x0b22 => Some(2),
        0x0b23 => Some(2),
        0x0b24 => Some(2),
        0x0b25 => Some(1),
        0x0b26 => Some(1),
        0x0b27 => Some(3),
        0x0b28 => Some(2),
        0x0b29 => Some(1),
        0x0b2a => Some(2),
        0x0b2b => Some(2),
        0x0b2c => Some(2),
        0x0b2d => Some(2),
        0x0b2e => Some(1),
        0x0b2f => Some(1),
        0x0b30 => Some(3),
        0x0b31 => Some(2),
        0x0c00 => Some(4),
        0x0c01 => Some(4),
        0x0c02 => Some(2),
        0x0c03 => Some(2),
        0x0c04 => Some(2),
        0x0d00 => Some(2),
        0x0d01 => Some(2),
        0x0d02 => Some(2),
        0x0d03 => Some(1),
        0x0d04 => Some(1),
        0x0d05 => Some(1),
        0x0d06 => Some(2),
        0x0d07 => Some(2),
        0x0d08 => Some(2),
        0x0d09 => Some(2),
        0x0d0a => Some(6),
        0x0d0b => Some(5),
        0x0d0c => Some(2),
        0x0d0d => Some(1),
        0x0d0e => Some(1),
        0x0d0f => Some(1),
        0x0d10 => Some(1),
        0x0d11 => Some(1),
        0x0d12 => Some(1),
        0x0e00 => Some(3),
        0x0e01 => Some(5),
        0x0e02 => Some(5),
        0x0e03 => Some(5),
        0x0e04 => Some(3),
        0x0e05 => Some(2),
        0x0e06 => Some(9),
        0x0e07 => Some(3),
        0x0e08 => Some(8),
        0x0e09 => Some(3),
        0x0e0a => Some(3),
        0x0e0b => Some(8),
        0x0f00 => Some(5),
        0x0f01 => Some(5),
        0x0f02 => Some(3),
        0x0f03 => Some(1),
        0x0f04 => Some(11),
        0x0f05 => Some(11),
        0x0f06 => Some(1),
        0x0f07 => Some(1),
        0x0f08 => Some(1),
        0x0f09 => Some(1),
        0x0f0a => Some(3),
        0x0f0b => Some(1),
        0x0f0c => Some(1),
        0x0f0d => Some(1),
        0x0f0e => Some(1),
        0x0f0f => Some(1),
        0x0f10 => Some(2),
        0x0f11 => Some(1),
        0x0f12 => Some(1),
        0x0f13 => Some(5),
        0x0f14 => Some(2),
        0x0f15 => Some(4),
        0x0f16 => Some(1),
        0x0f17 => Some(3),
        0x0f18 => Some(3),
        0x0f19 => Some(1),
        0x0f1a => Some(1),
        0x0f1b => Some(1),
        0x0f1c => Some(3),
        0x0f1d => Some(1),
        0x0f1e => Some(1),
        0x1000 => Some(2),
        0x1001 => Some(2),
        0x1002 => Some(1),
        0x1003 => Some(2),
        0x1004 => Some(3),
        0x1005 => Some(3),
        0x1007 => Some(1),
        0x100d => Some(3),
        0x100e => Some(2),
        0x1011 => Some(2),
        0x1012 => Some(1),
        0x1013 => Some(3),
        0x1100 => Some(2),
        0x1101 => Some(2),
        0x1102 => Some(2),
        0x1103 => Some(1),
        0x1104 => Some(1),
        0x1105 => Some(1),
        0x1106 => Some(2),
        0x1107 => Some(2),
        0x1108 => Some(1),
        0x1109 => Some(1),
        0x110a => Some(2),
        0x110b => Some(2),
        0x110c => Some(2),
        0x110d => Some(3),
        0x110e => Some(2),
        0x110f => Some(1),
        0x1110 => Some(2),
        _ => None,
    }
}

/// Word `i` of the command at `cur`, zero when it is past the end.
pub open spec fn spec_w(buf: Seq<u8>, cur: int, i: int) -> int {
    match spec_u16_at(buf, cur + 2 * i) {
        Some(x) => x as int,
        None => 0,
    }
}

/// Length in words of a command that is not control flow, `None` when the
/// opcode has none. The three computed lengths the binary works out at runtime:
///   0x0401 falls through all n pairs, 2 + 2n words
///   0x0600 registers a task; 800ce360 reads the argc at word 3
///   0x0B06 calls a native; 800cfb28 advances by argc + 3 words
pub open spec fn spec_advance(buf: Seq<u8>, cur: int, op: u16) -> Option<int> {
    let n = if op == 0x0401 {
        2 + 2 * spec_w(buf, cur, 1)
    } else if op == 0x0600 {
        spec_w(buf, cur, 3) + 5
    } else if op == 0x0b06 {
        spec_w(buf, cur, 2) + 3
    } else {
        match spec_length(op) {
            Some(l) => l as int,
            None => 0,
        }
    };
    if n > 0 { Some(n) } else { None }
}

fn w_at(buf: &[u8], cur: usize, i: usize) -> (r: usize)
    requires
        cur + 2 * i <= usize::MAX,
    ensures
        r == spec_w(buf@, cur as int, i as int),
        r <= 0xffff,
{
    match u16at(buf, cur + i * 2) {
        Some(x) => x as usize,
        None => 0,
    }
}

pub fn advance(buf: &[u8], cur: usize, op: u16) -> (r: Option<usize>)
    requires
        cur + 6 <= usize::MAX,
    ensures
        r matches Some(n) ==> Some(n as int) == spec_advance(buf@, cur as int, op),
        r is None ==> spec_advance(buf@, cur as int, op) is None,
        r matches Some(n) ==> 0 < n <= 0x20000,
{
    let n: usize = if op == 0x0401 {
        2 + 2 * w_at(buf, cur, 1)
    } else if op == 0x0600 {
        w_at(buf, cur, 3) + 5
    } else if op == 0x0b06 {
        w_at(buf, cur, 2) + 3
    } else {
        match lookup(op) {
            Some(l) => l as usize,
            None => 0,
        }
    };
    if n > 0 { Some(n) } else { None }
}

/// The halfwords at `off`, `off + 2`, ... are `n` non-terminators followed by
/// a terminator.
pub open spec fn term_at(buf: Seq<u8>, off: int, n: int) -> bool {
    &&& n >= 0
    &&& spec_u16_at(buf, off + 2 * n) == Some(TERMINATOR)
    &&& forall|i: int| 0 <= i < n ==> #[trigger] spec_u16_at(buf, off + 2 * i) is Some && spec_u16_at(buf, off + 2 * i)
        != Some(TERMINATOR)
}

/// The `n` codes at `off`.
pub open spec fn run_codes(buf: Seq<u8>, off: int, n: int) -> Seq<u16> {
    Seq::new(n as nat, |i: int| spec_u16_at(buf, off + 2 * i).unwrap())
}

/// The codes of the terminated string at `off`, when it ends before `limit`
/// codes.
pub open spec fn spec_read_codes(buf: Seq<u8>, off: int, limit: int) -> Option<Seq<u16>> {
    if exists|n: int| 0 <= n < limit && term_at(buf, off, n) {
        Some(run_codes(buf, off, choose|n: int| 0 <= n < limit && term_at(buf, off, n)))
    } else {
        None
    }
}

/// A string has only one terminator that ends it.
pub proof fn lemma_term_at_unique(buf: Seq<u8>, off: int, n: int, m: int)
    requires
        term_at(buf, off, n),
        term_at(buf, off, m),
    ensures
        n == m,
{
    if n < m {
        assert(spec_u16_at(buf, off + 2 * n) is Some);
    } else if m < n {
        assert(spec_u16_at(buf, off + 2 * m) is Some);
    }
}

/// Read u16 codes to the 0xF800 terminator
pub fn read_codes(buf: &[u8], off: usize, limit: usize) -> (r: Option<Vec<u16>>)
    ensures
        r matches Some(c) ==> c@.len() < limit && term_at(buf@, off as int, c@.len() as int) && c@ == run_codes(
            buf@,
            off as int,
            c@.len() as int,
        ),
        r is None ==> forall|n: int| 0 <= n < limit ==> !term_at(buf@, off as int, n),
        r matches Some(c) ==> spec_read_codes(buf@, off as int, limit as int) == Some(c@),
        r is None <==> spec_read_codes(buf@, off as int, limit as int) is None,
{
    let mut out: Vec<u16> = Vec::new();
    let mut at: usize = off;
    while out.len() < limit
        invariant
            at == off + 2 * out@.len(),
            out@.len() <= limit,
            out@ == run_codes(buf@, off as int, out@.len() as int),
            forall|i: int| 0 <= i < out@.len() ==> #[trigger] spec_u16_at(buf@, off + 2 * i) is Some && spec_u16_at(
                buf@,
                off + 2 * i,
            ) != Some(TERMINATOR),
            forall|n: int| 0 <= n < out@.len() ==> !term_at(buf@, off as int, n),
        decreases limit - out@.len(),
    {
        match u16at(buf, at) {
            None => {
                proof {
                    assert forall|n: int| 0 <= n < limit implies !term_at(buf@, off as int, n) by {
                        if n > out@.len() {
                            assert(spec_u16_at(buf@, off + 2 * out@.len()) is None);
                        }
                    }
                    assert(!exists|n: int| 0 <= n < limit && term_at(buf@, off as int, n));
                }
                return None;
            },
            Some(c) => {
                if c == TERMINATOR {
                    proof {
                        let n = out@.len() as int;
                        assert(term_at(buf@, off as int, n));
                        assert forall|m: int| 0 <= m < limit && term_at(buf@, off as int, m) implies m == n by {
                            lemma_term_at_unique(buf@, off as int, n, m);
                        }
                    }
                    return Some(out);
                }
                let ghost prev = out@;
                assert(at + 2 <= buf@.len());
                assert(buf@.len() == buf.len());
                out.push(c);
                proof {
                    assert(out@ =~= run_codes(buf@, off as int, out@.len() as int));
                    assert forall|n: int| 0 <= n < out@.len() implies !term_at(buf@, off as int, n) by {
                        if n == prev.len() {
                            assert(spec_u16_at(buf@, off + 2 * n) == Some(c));
                        }
                    }
                }
                at = at + 2;
            },
        }
    }
    proof {
        assert(!exists|n: int| 0 <= n < limit && term_at(buf@, off as int, n));
    }
    None
}

/// How many of `codes` are printable glyphs.
pub open spec fn spec_count_glyphs(codes: Seq<u16>) -> nat {
    codes.filter(|c: u16| c <= GLYPH_MAX).len()
}

pub fn count_glyphs(codes: &[u16]) -> (n: usize)
    ensures
        n == spec_count_glyphs(codes@),
{
    let mut n: usize = 0;
    let mut i: usize = 0;
    while i < codes.len()
        invariant
            i <= codes@.len(),
            n == spec_count_glyphs(codes@.take(i as int)),
            n <= i,
        decreases codes@.len() - i,
    {
        proof {
            assert(codes@.take(i + 1) =~= codes@.take(i as int).push(codes@[i as int]));
            codes@.take(i as int).lemma_filter_push(codes@[i as int], |c: u16| c <= GLYPH_MAX);
        }
        if codes[i] <= GLYPH_MAX {
            n = n + 1;
        }
        i = i + 1;
    }
    assert(codes@.take(codes@.len() as int) =~= codes@);
    n
}

/// How code `c` renders: its table glyph, or `[0xhhhh]`.
pub open spec fn glyph_text(glyphs: Map<u16, String>, c: u16) -> Seq<char> {
    if glyphs.contains_key(c) {
        glyphs[c]@
    } else {
        "[0x"@ + hex(c as nat, 4) + "]"@
    }
}

/// The rendering of `codes`, glyph by glyph.
pub open spec fn spec_render(codes: Seq<u16>, glyphs: Map<u16, String>) -> Seq<char>
    decreases codes.len(),
{
    if codes.len() == 0 {
        Seq::empty()
    } else {
        spec_render(codes.drop_last(), glyphs) + glyph_text(glyphs, codes.last())
    }
}

/// Piece `i` of a rendering, eight characters from `8 * i`, is `[0x`, four
/// hexadecimal digits that read as `c`, and `]`.
pub open spec fn piece_reads(r: Seq<char>, i: int, c: u16) -> bool {
    &&& r.subrange(8 * i, 8 * i + 3) == "[0x"@
    &&& r[8 * i + 7] == ']'
    &&& crate::utils::spec_from_hex(r.subrange(8 * i + 3, 8 * i + 7), 0xffff) == Ok::<nat, crate::utils::IntError>(c as nat)
}

/// Codes the glyph table lacks survive rendering: each is one eight-character
/// piece `[0x....]` whose four digits read back as the code, so the
/// rendering holds every such code, in order, and gives it back.
pub proof fn lemma_render_unmapped_reads_back(codes: Seq<u16>, glyphs: Map<u16, String>)
    requires
        forall|i: int| 0 <= i < codes.len() ==> !glyphs.contains_key(#[trigger] codes[i]),
    ensures
        spec_render(codes, glyphs).len() == 8 * codes.len(),
        forall|i: int| 0 <= i < codes.len() ==> #[trigger] piece_reads(spec_render(codes, glyphs), i, codes[i]),
    decreases codes.len(),
{
    reveal_strlit("[0x");
    reveal_strlit("]");
    if codes.len() > 0 {
        let d = codes.drop_last();
        assert forall|i: int| 0 <= i < d.len() implies !glyphs.contains_key(#[trigger] d[i]) by {
            assert(d[i] == codes[i]);
        }
        lemma_render_unmapped_reads_back(d, glyphs);
        let c = codes.last();
        assert(!glyphs.contains_key(codes[codes.len() - 1]));
        crate::utils::lemma_hex4_reads_back(c as nat);
        let p = spec_render(d, glyphs);
        let piece = glyph_text(glyphs, c);
        assert(piece == "[0x"@ + hex(c as nat, 4) + "]"@);
        let r = spec_render(codes, glyphs);
        assert(r == p + piece);
        assert forall|i: int| 0 <= i < codes.len() implies #[trigger] piece_reads(r, i, codes[i]) by {
            if i < d.len() {
                assert(d[i] == codes[i]);
                assert(piece_reads(p, i, d[i]));
                assert(r.subrange(8 * i, 8 * i + 3) =~= p.subrange(8 * i, 8 * i + 3));
                assert(r.subrange(8 * i + 3, 8 * i + 7) =~= p.subrange(8 * i + 3, 8 * i + 7));
                assert(r[8 * i + 7] == p[8 * i + 7]);
            } else {
                assert(i == d.len());
                assert(r.subrange(8 * i, 8 * i + 3) =~= "[0x"@);
                assert(r.subrange(8 * i + 3, 8 * i + 7) =~= hex(c as nat, 4));
                assert(r[8 * i + 7] == piece[7]);
            }
        }
    }
}

/// Two code runs the glyph table lacks entirely render alike only when they
/// are the same run.
pub proof fn lemma_render_unmapped_injective(a: Seq<u16>, b: Seq<u16>, glyphs: Map<u16, String>)
    requires
        forall|i: int| 0 <= i < a.len() ==> !glyphs.contains_key(#[trigger] a[i]),
        forall|i: int| 0 <= i < b.len() ==> !glyphs.contains_key(#[trigger] b[i]),
        spec_render(a, glyphs) == spec_render(b, glyphs),
    ensures
        a == b,
{
    lemma_render_unmapped_reads_back(a, glyphs);
    lemma_render_unmapped_reads_back(b, glyphs);
    assert(a.len() == b.len());
    assert forall|i: int| 0 <= i < a.len() implies a[i] == b[i] by {
        assert(piece_reads(spec_render(a, glyphs), i, a[i]));
        assert(piece_reads(spec_render(b, glyphs), i, b[i]));
    }
    assert(a =~= b);
}

pub fn render(codes: &[u16], glyphs: &HashMap<u16, String>) -> (s: String)
    ensures
        s@ == spec_render(codes@, glyphs@),
{
    broadcast use vstd::std_specs::hash::group_hash_axioms;
    let mut out: Vec<char> = Vec::new();
    let mut i: usize = 0;
    while i < codes.len()
        invariant
            i <= codes@.len(),
            out@ == spec_render(codes@.take(i as int), glyphs@),
        decreases codes@.len() - i,
    {
        let c = codes[i];
        match glyphs.get(&c) {
            Some(g) => push_str(&mut out, g.as_str()),
            None => {
                push_str(&mut out, "[0x");
                push_hex(&mut out, c as u64, 4);
                push_str(&mut out, "]");
            },
        }
        proof {
            let t = codes@.take(i + 1);
            assert(t.drop_last() =~= codes@.take(i as int));
        }
        i = i + 1;
    }
    assert(codes@.take(codes@.len() as int) =~= codes@);
    string_of(out.as_slice())
}

/// The families of `codes` that consume a variadic argument, in order.
pub open spec fn spec_variadic(codes: Seq<u16>) -> Seq<u16> {
    codes.map_values(|c: u16| c & 0xf800).filter(|f: u16| is_variadic(f))
}

fn variadic(codes: &[u16]) -> (v: Vec<u16>)
    ensures
        v@ == spec_variadic(codes@),
{
    let mut v: Vec<u16> = Vec::new();
    let mut i: usize = 0;
    while i < codes.len()
        invariant
            i <= codes@.len(),
            v@ == spec_variadic(codes@.take(i as int)),
        decreases codes@.len() - i,
    {
        let f = codes[i] & 0xf800;
        proof {
            assert(codes@.take(i + 1) =~= codes@.take(i as int).push(codes@[i as int]));
            assert(codes@.take(i + 1).map_values(|c: u16| c & 0xf800) =~= codes@.take(i as int).map_values(|c: u16| c & 0xf800).push(f));
            codes@.take(i as int).map_values(|c: u16| c & 0xf800).lemma_filter_push(f, |f: u16| is_variadic(f));
        }
        if f == 0x1000 || f == 0x1800 || f == 0x7800 || f == 0x2000 || f == 0x2800 || f == 0x6800 || f == 0xE800 {
            v.push(f);
        }
        i = i + 1;
    }
    assert(codes@.take(codes@.len() as int) =~= codes@);
    v
}

/// Why a replacement text was refused.
#[derive(Debug, Clone)]
pub enum CheckError {
    /// more codes than `EXPANSION_CAP`
    TooMany { codes: usize },
    /// a code at or above the terminator
    TerminatorCode,
    /// a numeric field wider than 31 digits
    NumericWidth { code: u16, width: u16 },
    /// an inserted-string field wider than 30 words
    PadWidth { code: u16, width: u16 },
    /// the variadic families changed count or order
    VariadicChanged { was: Vec<u16>, now: Vec<u16> },
    /// more glyphs than the name cap
    OverCap { glyphs: usize, cap: usize },
}

/// The text of a refusal for a changed variadic sequence.
pub open spec fn variadic_text(was: Seq<u16>, now: Seq<u16>) -> Seq<char> {
    "variadic argument sequence changed: "@ + hex_list(was) + " -> "@ + hex_list(now)
        + ". showTextAsBox consumes these positionally, so count and order must both survive translation"@
}

/// The text of a refusal.
pub open spec fn check_error_text(e: CheckError) -> Seq<char> {
    match e {
        CheckError::TooMany { codes } => decimal(codes as nat)
            + " codes exceeds the 255-code expansion cap. FUN_800DDB84 writes the complete string and terminator into a 512-byte stack buffer, so a longer string corrupts saved registers and the return address"@,
        CheckError::TerminatorCode =>
            "code at or above 0xF800; that is the terminator, which the packer appends, and nothing above it is a defined family"@,
        CheckError::NumericWidth { code, width } => "numeric field code "@ + hex(code as nat, 4) + " has width "@
            + decimal(width as nat)
            + "; N>31 writes the terminator past the 64-byte scratch at 0x801B7440 and corrupts the frame's display list"@,
        CheckError::PadWidth { code, width } => "inserted-string code "@ + hex(code as nat, 4) + " has width "@
            + decimal(width as nat)
            + "; FUN_800177BC clamps at 30 words, so anything above is silently truncated"@,
        CheckError::VariadicChanged { was, now } => variadic_text(was@, now@),
        CheckError::OverCap { glyphs, cap } => decimal(glyphs as nat) + " glyphs exceeds the "@ + decimal(cap as nat)
            + "-glyph cap. Over the cap the 0x12-byte copy loses the 0xF800 and the renderer walks off the field -- corruption, not a clipped name"@,
    }
}

impl CheckError {
    pub fn message(&self) -> (s: String)
        ensures
            s@ == check_error_text(*self),
    {
        let mut out: Vec<char> = Vec::new();
        match self {
            CheckError::TooMany { codes } => {
                push_dec(&mut out, *codes as u64);
                push_str(&mut out, " codes exceeds the 255-code expansion cap. FUN_800DDB84 writes the complete string and terminator into a 512-byte stack buffer, so a longer string corrupts saved registers and the return address");
            },
            CheckError::TerminatorCode => {
                push_str(&mut out, "code at or above 0xF800; that is the terminator, which the packer appends, and nothing above it is a defined family");
            },
            CheckError::NumericWidth { code, width } => {
                push_str(&mut out, "numeric field code ");
                push_hex(&mut out, *code as u64, 4);
                push_str(&mut out, " has width ");
                push_dec(&mut out, *width as u64);
                push_str(&mut out, "; N>31 writes the terminator past the 64-byte scratch at 0x801B7440 and corrupts the frame's display list");
            },
            CheckError::PadWidth { code, width } => {
                push_str(&mut out, "inserted-string code ");
                push_hex(&mut out, *code as u64, 4);
                push_str(&mut out, " has width ");
                push_dec(&mut out, *width as u64);
                push_str(&mut out, "; FUN_800177BC clamps at 30 words, so anything above is silently truncated");
            },
            CheckError::VariadicChanged { was, now } => {
                push_str(&mut out, "variadic argument sequence changed: ");
                push_hex_list(&mut out, was.as_slice());
                push_str(&mut out, " -> ");
                push_hex_list(&mut out, now.as_slice());
                push_str(&mut out, ". showTextAsBox consumes these positionally, so count and order must both survive translation");
            },
            CheckError::OverCap { glyphs, cap } => {
                push_dec(&mut out, *glyphs as u64);
                push_str(&mut out, " glyphs exceeds the ");
                push_dec(&mut out, *cap as u64);
                push_str(&mut out, "-glyph cap. Over the cap the 0x12-byte copy loses the 0xF800 and the renderer walks off the field -- corruption, not a clipped name");
            },
        }
        string_of(out.as_slice())
    }
}

/// Refuse a translation that changes which positional vararg each formatting
/// code consumes. Non-consuming controls may move freely; only the family
/// sequence matters.
pub fn check_variadic_args(orig: &[u16], codes: &[u16]) -> (r: Result<(), CheckError>)
    ensures
        r is Ok <==> spec_variadic(orig@) == spec_variadic(codes@),
        r matches Err(e) ==> e matches CheckError::VariadicChanged { was, now } && was@ == spec_variadic(orig@)
            && now@ == spec_variadic(codes@),
{
    let was = variadic(orig);
    let now = variadic(codes);
    let mut same = was.len() == now.len();
    let mut i: usize = 0;
    while same && i < was.len()
        invariant
            i <= was@.len(),
            same ==> was@.len() == now@.len(),
            same ==> forall|j: int| 0 <= j < i ==> was@[j] == now@[j],
            !same ==> was@ != now@,
        decreases was@.len() - i,
    {
        if was[i] != now[i] {
            same = false;
        }
        i = i + 1;
    }
    if same {
        assert(was@ =~= now@);
        Ok(())
    } else {
        Err(CheckError::VariadicChanged { was, now })
    }
}

/// The first code of `codes` at or after `i` whose field width is over its
/// family's limit.
pub open spec fn first_bad_width(codes: Seq<u16>, i: int) -> Option<CheckError>
    decreases codes.len() - i,
{
    if i < 0 || i >= codes.len() {
        None
    } else {
        let c = codes[i];
        let fam = c & 0xF800;
        let n = c & 0x07FF;
        if is_num_field(fam) && n > 31 {
            Some(CheckError::NumericWidth { code: c, width: n })
        } else if is_pad_field(fam) && n > 30 {
            Some(CheckError::PadWidth { code: c, width: n })
        } else {
            first_bad_width(codes, i + 1)
        }
    }
}

/// Which limit, checked in this order, a replacement breaks first.
pub open spec fn spec_check_kind(codes: Seq<u16>, orig: Seq<u16>, cap: Option<usize>) -> int {
    if codes.len() > EXPANSION_CAP {
        1
    } else if exists|i: int| 0 <= i < codes.len() && codes[i] >= TERMINATOR {
        2
    } else if first_bad_width(codes, 0) is Some {
        3
    } else if spec_variadic(orig) != spec_variadic(codes) {
        4
    } else if cap matches Some(c) && spec_count_glyphs(codes) > c {
        5
    } else {
        0
    }
}

/// The text of the refusal `check` gives, by the first limit broken.
pub open spec fn check_text(codes: Seq<u16>, orig: Seq<u16>, cap: Option<usize>) -> Seq<char> {
    let k = spec_check_kind(codes, orig, cap);
    if k == 1 {
        check_error_text(CheckError::TooMany { codes: codes.len() as usize })
    } else if k == 2 {
        check_error_text(CheckError::TerminatorCode)
    } else if k == 3 {
        check_error_text(first_bad_width(codes, 0).unwrap())
    } else if k == 4 {
        variadic_text(spec_variadic(orig), spec_variadic(codes))
    } else {
        check_error_text(CheckError::OverCap { glyphs: spec_count_glyphs(codes) as usize, cap: cap.unwrap() })
    }
}

/// Text limits enforced on replacements
pub fn check(codes: &[u16], orig: &[u16], cap: Option<usize>) -> (r: Result<(), CheckError>)
    ensures
        r matches Err(e) ==> check_error_text(e) == check_text(codes@, orig@, cap),
        r is Ok <==> spec_check_kind(codes@, orig@, cap) == 0,
        spec_check_kind(codes@, orig@, cap) == 1 ==> (r matches Err(CheckError::TooMany { codes: n }) && n == codes@.len()),
        spec_check_kind(codes@, orig@, cap) == 2 ==> r matches Err(CheckError::TerminatorCode),
        spec_check_kind(codes@, orig@, cap) == 3 ==> (r matches Err(e) && Some(e) == first_bad_width(codes@, 0)),
        spec_check_kind(codes@, orig@, cap) == 4 ==> (r matches Err(CheckError::VariadicChanged { was, now })
            && was@ == spec_variadic(orig@) && now@ == spec_variadic(codes@)),
        spec_check_kind(codes@, orig@, cap) == 5 ==> (r matches Err(CheckError::OverCap { glyphs, cap: c })
            && glyphs == spec_count_glyphs(codes@) && Some(c) == cap),
{
    if codes.len() > EXPANSION_CAP {
        return Err(CheckError::TooMany { codes: codes.len() });
    }
    let mut i: usize = 0;
    while i < codes.len()
        invariant
            i <= codes@.len(),
            codes@.len() <= EXPANSION_CAP,
            forall|j: int| 0 <= j < i ==> codes@[j] < TERMINATOR,
        decreases codes@.len() - i,
    {
        if codes[i] >= TERMINATOR {
            return Err(CheckError::TerminatorCode);
        }
        i = i + 1;
    }
    let mut i: usize = 0;
    while i < codes.len()
        invariant
            i <= codes@.len(),
            codes@.len() <= EXPANSION_CAP,
            forall|j: int| 0 <= j < codes@.len() ==> codes@[j] < TERMINATOR,
            first_bad_width(codes@, 0) == first_bad_width(codes@, i as int),
        decreases codes@.len() - i,
    {
        let c = codes[i];
        let fam = c & FAMILY;
        let n = c & ARG;
        if (fam == 0x1000 || fam == 0x1800 || fam == 0x7800) && n > 31 {
            return Err(CheckError::NumericWidth { code: c, width: n });
        }
        if (fam == 0x2000 || fam == 0x2800 || fam == 0x6800) && n > 30 {
            return Err(CheckError::PadWidth { code: c, width: n });
        }
        i = i + 1;
    }
    check_variadic_args(orig, codes)?;
    match cap {
        Some(cap) => {
            let n = count_glyphs(codes);
            if n > cap {
                return Err(CheckError::OverCap { glyphs: n, cap });
            }
        },
        None => {},
    }
    Ok(())
}

/// The bytes of a replacement string: its codes, then the terminator.
pub open spec fn string_bytes(codes: Seq<u16>) -> Seq<u8> {
    be16_seq(codes) + be16_bytes(TERMINATOR)
}

pub fn codes_to_bytes(codes: &[u16]) -> (b: Vec<u8>)
    ensures
        b@ == string_bytes(codes@),
        b@.len() == 2 * codes@.len() + 2,
{
    let mut b: Vec<u8> = Vec::new();
    let mut i: usize = 0;
    while i < codes.len()
        invariant
            i <= codes@.len(),
            b@ == be16_seq(codes@.take(i as int)),
        decreases codes@.len() - i,
    {
        push_be16(&mut b, codes[i]);
        proof {
            let t = codes@.take(i + 1);
            assert(t.drop_last() =~= codes@.take(i as int));
        }
        i = i + 1;
    }
    push_be16(&mut b, TERMINATOR);
    proof {
        assert(codes@.take(codes@.len() as int) =~= codes@);
        lemma_be16_seq_len(codes@);
    }
    b
}


/// How many entries of `s` are set.
pub open spec fn count_true(s: Seq<bool>) -> nat
    decreases s.len(),
{
    if s.len() == 0 {
        0
    } else {
        count_true(s.drop_last()) + if s.last() { 1nat } else { 0nat }
    }
}

pub proof fn lemma_count_true_bound(s: Seq<bool>)
    ensures
        count_true(s) <= s.len(),
    decreases s.len(),
{
    if s.len() > 0 {
        lemma_count_true_bound(s.drop_last());
    }
}

/// Setting an unset entry adds one to the count.
pub proof fn lemma_count_true_set(s: Seq<bool>, i: int)
    requires
        0 <= i < s.len(),
        !s[i],
    ensures
        count_true(s.update(i, true)) == count_true(s) + 1,
    decreases s.len(),
{
    let t = s.update(i, true);
    if i == s.len() - 1 {
        assert(t.drop_last() =~= s.drop_last());
    } else {
        lemma_count_true_set(s.drop_last(), i);
        assert(t.drop_last() =~= s.drop_last().update(i, true));
    }
}

/// `n` falses.
pub fn all_false(n: usize) -> (v: Vec<bool>)
    ensures
        v@.len() == n,
        forall|i: int| 0 <= i < n ==> !#[trigger] v@[i],
        count_true(v@) == 0,
{
    let mut v: Vec<bool> = Vec::new();
    while v.len() < n
        invariant
            v@.len() <= n,
            forall|i: int| 0 <= i < v@.len() ==> !#[trigger] v@[i],
            count_true(v@) == 0,
        decreases n - v@.len(),
    {
        let ghost old_v = v@;
        v.push(false);
        proof {
            assert(v@.drop_last() =~= old_v);
        }
    }
    v
}

/// The elements of a jump array at `base` from `out` on, while they stay
/// below `bound`: each a nonzero even offset inside the window, every one
/// after the first a place the interpreter could run from; the first element
/// that falls inside the array ends it there.
pub open spec fn jump_from(buf: Seq<u8>, base: int, limit: int, bound: int, out: Seq<usize>) -> Seq<usize>
    decreases limit + 2 - (base + 2 * out.len()),
{
    if !(base + 2 * out.len() < bound) || bound > limit {
        out
    } else {
        match spec_u16_at(buf, base + 2 * out.len()) {
            None => out,
            Some(t) => if t == 0 || t >= limit || t % 2 != 0 {
                out
            } else if out.len() > 0 && !runs_from(buf, limit, seq![t as usize], none_seen(limit)) {
                out
            } else {
                jump_from(buf, base, limit, if base <= t && t < bound { t as int } else { bound }, out.push(t as usize))
            },
        }
    }
}

/// The elements of a jump array's inline target array, which nothing declares
/// a length for: each is a nonzero, even, in-range halfword read in order
/// from `base`, and every one after the first must run as code.
pub fn jump_array(buf: &[u8], base: usize, limit: usize) -> (out: Vec<usize>)
    requires
        limit <= REACH,
        base <= 2 * REACH,
    ensures
        forall|i: int| 0 <= i < out@.len() ==> spec_u16_at(buf@, base + 2 * i) == Some(#[trigger] out@[i] as u16)
            && 0 < out@[i] < limit && out@[i] % 2 == 0,
        out@.len() == 0 || base + 2 * out@.len() <= limit + 2,
        out@ == jump_from(buf@, base as int, limit as int, limit as int, Seq::empty()),
{
    let mut out: Vec<usize> = Vec::new();
    let mut bound: usize = limit;
    let ghost answer = jump_from(buf@, base as int, limit as int, limit as int, Seq::empty());
    proof {
        assert(out@ =~= Seq::<usize>::empty());
    }
    while base + out.len() * 2 < bound
        invariant
            limit <= REACH,
            base <= 2 * REACH,
            bound <= limit,
            out@.len() == 0 || base + 2 * out@.len() <= limit + 2,
            forall|i: int| 0 <= i < out@.len() ==> spec_u16_at(buf@, base + 2 * i) == Some(#[trigger] out@[i] as u16)
                && 0 < out@[i] < limit && out@[i] % 2 == 0,
            answer == jump_from(buf@, base as int, limit as int, limit as int, Seq::empty()),
            jump_from(buf@, base as int, limit as int, bound as int, out@) == answer,
        ensures
            out@ == answer,
        decreases limit + 2 - (base + 2 * out@.len()),
    {
        let t = match u16at(buf, base + out.len() * 2) {
            Some(t) => t as usize,
            None => break,
        };
        if t == 0 || t >= limit || t % 2 != 0 {
            break;
        }
        if out.len() > 0 && !runs_as_code(buf, t, limit) {
            break;
        }
        if base <= t && t < bound {
            bound = t;
        }
        out.push(t);
    }
    out
}

/// The target operand `w` of the command at `cur`, when it lies inside the
/// window.
pub open spec fn operand_target(buf: Seq<u8>, cur: int, w: int, limit: int) -> Seq<usize> {
    match spec_u16_at(buf, cur + w * 2) {
        Some(t) => if t > 0 && t < limit {
            seq![t as usize]
        } else {
            Seq::empty()
        },
        None => Seq::empty(),
    }
}

/// The targets among the first `n` (mask, target) pairs of the 0x0401 at
/// `cur` that lie inside the window, in order.
pub open spec fn pair_targets(buf: Seq<u8>, cur: int, limit: int, n: int) -> Seq<usize>
    decreases n,
{
    if n <= 0 {
        Seq::empty()
    } else {
        pair_targets(buf, cur, limit, n - 1) + operand_target(buf, cur, 3 + 2 * (n - 1), limit)
    }
}

/// No position of the window seen yet.
pub open spec fn none_seen(limit: int) -> Seq<bool> {
    Seq::new(limit as nat, |i: int| false)
}

/// Whether the interpreter could run from every position of `work` (the last
/// first), `seen` holding the positions already followed: every path reaches
/// a sentinel or a return before an opcode with no known length or the end of
/// the file.
pub open spec fn runs_from(buf: Seq<u8>, limit: int, work: Seq<usize>, seen: Seq<bool>) -> bool
    decreases limit - count_true(seen), work.len(),
{
    if work.len() == 0 || seen.len() != limit {
        true
    } else {
        let cur = work.last() as int;
        let rest = work.drop_last();
        if cur >= limit || seen[cur] {
            runs_from(buf, limit, rest, seen)
        } else {
            let seen2 = seen.update(cur, true);
            proof {
                lemma_count_true_set(seen, cur);
                lemma_count_true_bound(seen2);
            }
            match spec_u16_at(buf, cur) {
                None => false,
                Some(op) => if op == END || op == RET {
                    runs_from(buf, limit, rest, seen2)
                } else if op == PAD_OP {
                    runs_from(buf, limit, rest.push((cur + 2) as usize), seen2)
                } else if spec_goto(op) is Some {
                    runs_from(
                        buf,
                        limit,
                        rest + operand_target(buf, cur, spec_goto(op).unwrap() as int, limit) + (if op == 0x0806 {
                            seq![(cur + CALL_LEN * 2) as usize]
                        } else {
                            Seq::empty()
                        }),
                        seen2,
                    )
                } else if spec_branch(op) is Some {
                    runs_from(
                        buf,
                        limit,
                        rest + operand_target(buf, cur, spec_branch(op).unwrap().0 as int, limit) + seq![
                            (cur + spec_branch(op).unwrap().1 * 2) as usize,
                        ],
                        seen2,
                    )
                } else {
                    let w3 = if op == 0x0401 {
                        rest + pair_targets(buf, cur, limit, spec_w(buf, cur, 1))
                    } else {
                        rest
                    };
                    match spec_advance(buf, cur, op) {
                        Some(n) => runs_from(buf, limit, w3.push((cur + n * 2) as usize), seen2),
                        None => false,
                    }
                }
            }
        }
    }
}

/// Could the interpreter run from here? Real code reaches a sentinel or a
/// return; a misread runs into an opcode that does not exist. Nested arrays are
/// left at element 0, which is enough to decide the question and keeps this
/// from recursing through the whole script.
fn runs_as_code(buf: &[u8], start: usize, limit: usize) -> (r: bool)
    requires
        limit <= REACH,
    ensures
        r == runs_from(buf@, limit as int, seq![start], none_seen(limit as int)),
{
    let mut work: Vec<usize> = Vec::new();
    work.push(start);
    let mut seen = all_false(limit);
    let mut seen_n: usize = 0;
    let ghost answer = runs_from(buf@, limit as int, seq![start], none_seen(limit as int));
    proof {
        assert(seen@ =~= none_seen(limit as int));
        assert(work@ =~= seq![start]);
    }
    while work.len() > 0
        invariant
            limit <= REACH,
            seen@.len() == limit,
            seen_n == count_true(seen@),
            runs_from(buf@, limit as int, work@, seen@) == answer,
            answer == runs_from(buf@, limit as int, seq![start], none_seen(limit as int)),
        decreases limit - seen_n, work@.len(),
    {
        proof {
            lemma_count_true_bound(seen@);
        }
        let ghost w0 = work@;
        let ghost s0 = seen@;
        let cur = work.pop().unwrap();
        proof {
            assert(work@ == w0.drop_last());
            assert(cur == w0.last());
        }
        if cur >= limit || seen[cur] {
            continue;
        }
        proof {
            lemma_count_true_set(seen@, cur as int);
        }
        seen.set(cur, true);
        seen_n = seen_n + 1;
        proof {
            lemma_count_true_bound(seen@);
        }
        let op = match u16at(buf, cur) {
            Some(op) => op,
            None => {
                proof {
                    assert(w0.last() as int == cur);
                    assert(!s0[cur as int]);
                    assert(runs_from(buf@, limit as int, w0, s0) == false);
                }
                return false;
            },
        };
        if op == END || op == RET {
            continue;
        }
        if op == PAD_OP {
            work.push(cur + 2);
            continue;
        }
        let ghost rest = work@;
        match goto(op) {
            Some(i) => {
                if let Some(t) = u16at(buf, cur + i * 2) {
                    let t = t as usize;
                    if t > 0 && t < limit {
                        work.push(t);
                    }
                }
                proof {
                    assert(work@ =~= rest + operand_target(buf@, cur as int, i as int, limit as int));
                }
                let ghost w1 = work@;
                if op == 0x0806 {
                    work.push(cur + CALL_LEN * 2);
                }
                proof {
                    assert(work@ =~= w1 + (if op == 0x0806 {
                        seq![(cur + CALL_LEN * 2) as usize]
                    } else {
                        Seq::<usize>::empty()
                    }));
                }
                continue;
            },
            None => {},
        }
        match branch(op) {
            Some((wd, fall)) => {
                if let Some(t) = u16at(buf, cur + wd * 2) {
                    let t = t as usize;
                    if t > 0 && t < limit {
                        work.push(t);
                    }
                }
                proof {
                    assert(work@ =~= rest + operand_target(buf@, cur as int, wd as int, limit as int));
                }
                let ghost w1 = work@;
                work.push(cur + fall * 2);
                proof {
                    assert(work@ =~= w1 + seq![(cur + fall * 2) as usize]);
                }
                continue;
            },
            None => {},
        }
        if op == 0x0401 {
            let pairs = w_at(buf, cur, 1);
            let mut k: usize = 0;
            while k < pairs
                invariant
                    k <= pairs <= 0xffff,
                    cur < REACH,
                    limit <= REACH,
                    pairs == spec_w(buf@, cur as int, 1),
                    work@ == rest + pair_targets(buf@, cur as int, limit as int, k as int),
                decreases pairs - k,
            {
                if let Some(t) = u16at(buf, cur + (3 + 2 * k) * 2) {
                    let t = t as usize;
                    if t > 0 && t < limit {
                        work.push(t);
                    }
                }
                proof {
                    assert(work@ =~= rest + pair_targets(buf@, cur as int, limit as int, k + 1));
                }
                k = k + 1;
            }
        }
        proof {
            if op != 0x0401 {
                assert(work@ == rest);
            }
        }
        match advance(buf, cur, op) {
            Some(n) => work.push(cur + n * 2),
            None => {
                proof {
                    assert(w0.last() as int == cur);
                    assert(!s0[cur as int]);
                    assert(runs_from(buf@, limit as int, w0, s0) == false);
                }
                return false;
            },
        }
    }
    true
}


/// How a reference names its string.
#[derive(Clone, Copy, Debug, PartialEq, Eq, Structural)]
pub enum RefKind {
    /// the command operand is the offset
    Direct(u16),
    /// slot of the array a 0x0307 operand points at
    ObjText(usize),
    /// slot of the string table dir entry `t` points at
    Table(usize),
    /// slot of an inner table reached through 0x0808's nested arrays
    Native(usize),
}

/// The `cmd` column of a reference comment.
pub open spec fn ref_cmd_text(k: RefKind) -> Seq<char> {
    match k {
        RefKind::Direct(op) => hex(op as nat, 4),
        RefKind::ObjText(_) => "0307-array"@,
        RefKind::Table(_) => "table"@,
        RefKind::Native(_) => "0808-table"@,
    }
}

/// How a reference describes itself in a comment.
pub open spec fn ref_kind_text(k: RefKind) -> Seq<char> {
    match k {
        RefKind::Direct(_) => "direct"@,
        RefKind::ObjText(base) => "obj-text[0x"@ + hex(base as nat, 1) + "]"@,
        RefKind::Table(t) => "table["@ + decimal(t as nat) + "]"@,
        RefKind::Native(outer) => "native-table[0x"@ + hex(outer as nat, 1) + "]"@,
    }
}

impl RefKind {
    /// the `cmd` column of a reference comment
    pub fn cmd(&self) -> (s: String)
        ensures
            s@ == ref_cmd_text(*self),
    {
        let mut out: Vec<char> = Vec::new();
        match self {
            RefKind::Direct(op) => push_hex(&mut out, *op as u64, 4),
            RefKind::ObjText(_) => push_str(&mut out, "0307-array"),
            RefKind::Table(_) => push_str(&mut out, "table"),
            RefKind::Native(_) => push_str(&mut out, "0808-table"),
        }
        string_of(out.as_slice())
    }

    /// The reference's kind as its comment names it.
    pub fn describe(&self) -> (s: String)
        ensures
            s@ == ref_kind_text(*self),
    {
        let mut out: Vec<char> = Vec::new();
        match self {
            RefKind::Direct(_) => push_str(&mut out, "direct"),
            RefKind::ObjText(base) => {
                push_str(&mut out, "obj-text[0x");
                push_hex(&mut out, *base as u64, 1);
                push_str(&mut out, "]");
            },
            RefKind::Table(t) => {
                push_str(&mut out, "table[");
                push_dec(&mut out, *t as u64);
                push_str(&mut out, "]");
            },
            RefKind::Native(outer) => {
                push_str(&mut out, "native-table[0x");
                push_hex(&mut out, *outer as u64, 1);
                push_str(&mut out, "]");
            },
        }
        string_of(out.as_slice())
    }

    /// dir 11 is the name table, whose entries the 0x12-byte copy caps
    pub fn is_name_table(&self) -> (r: bool)
        ensures
            r == (*self == RefKind::Table(11)),
    {
        match self {
            RefKind::Table(t) => *t == 11,
            _ => false,
        }
    }

    /// A table whose extent is recovered by decoding its entries, so a blank
    /// one ends the walk and hides everything after it.
    pub fn is_walked_table(&self) -> (r: bool)
        ensures
            r == (*self is Table || *self is ObjText),
    {
        match self {
            RefKind::Table(_) => true,
            RefKind::ObjText(_) => true,
            _ => false,
        }
    }
}

/// A reference to a string: one command operand or one directory-table slot.
#[derive(Clone, Debug)]
pub struct StringRef {
    /// the command address, or the table slot address for a table reference
    pub at: usize,
    pub offset: usize,
    /// one past the terminator
    pub end: usize,
    pub kind: RefKind,
    /// the halfword that has to be rewritten to repoint this reference
    pub slot: Option<usize>,
    pub jp: String,
}

pub struct WalkStats {
    pub steps: usize,
    pub sentinel: bool,
    /// opcode -> how many times the walk ran into it with no known length
    pub unknown: SortedMap<usize>,
    pub arrays: usize,
    pub targets: usize,
    /// byte position -> length in words, 0 when the length is not known
    pub cmds: SortedMap<usize>,
}

/// `s` names a terminated string of fewer than `lim` codes at its offset,
/// ends one past the terminator, and its `jp` is the rendering.
pub open spec fn string_at(buf: Seq<u8>, glyphs: Map<u16, String>, s: StringRef, lim: int) -> bool {
    &&& spec_read_codes(buf, s.offset as int, lim) is Some
    &&& s.end == s.offset + 2 * spec_read_codes(buf, s.offset as int, lim).unwrap().len() + 2
    &&& s.jp@ == spec_render(spec_read_codes(buf, s.offset as int, lim).unwrap(), glyphs)
    &&& s.offset % 2 == 0
}

/// Whether a direct operand is a text offset: 0x0306's word 3 below 116
/// selects a game-state source instead.
pub open spec fn direct_is_text(op: u16, raw: u16) -> bool {
    !(op == 0x0306 && raw < 116)
}

/// `s` is what the walk records for a text operand of the command at `s.at`.
pub open spec fn direct_ref_ok(buf: Seq<u8>, glyphs: Map<u16, String>, limit: int, s: StringRef) -> bool {
    &&& s.kind matches RefKind::Direct(op)
    &&& spec_u16_at(buf, s.at as int) == Some(op)
    &&& spec_text_operand(op) is Some
    &&& spec_u16_at(buf, s.at + 2 * spec_text_operand(op).unwrap()) == Some(s.offset as u16)
    &&& direct_is_text(op, s.offset as u16)
    &&& 0 < s.offset < limit
    &&& s.at < limit
    &&& string_at(buf, glyphs, s, DECODE_LIMIT as int)
    &&& spec_count_glyphs(spec_read_codes(buf, s.offset as int, DECODE_LIMIT as int).unwrap()) > 0
    &&& !spec_read_codes(buf, s.offset as int, DECODE_LIMIT as int).unwrap().contains(END)
    &&& s.slot is None
}

/// The length the walk records for the command at `k`.
pub open spec fn cmd_len_ok(buf: Seq<u8>, k: int, n: int) -> bool {
    let op = spec_u16_at(buf, k).unwrap();
    if op == END || op == PAD_OP || op == RET {
        n == 1
    } else if spec_goto(op) is Some {
        if is_jump_array(op) {
            n >= spec_goto(op).unwrap()
        } else {
            n == spec_goto(op).unwrap() + 1
        }
    } else if spec_branch(op) is Some {
        n == spec_branch(op).unwrap().1
    } else {
        match spec_advance(buf, k, op) {
            Some(a) => n == a,
            None => n == 0,
        }
    }
}

/// The positions the walk records are commands inside the window, with the
/// lengths their opcodes give.
pub open spec fn cmds_ok(buf: Seq<u8>, limit: int, cmds: Map<u32, usize>) -> bool {
    forall|k: u32| #[trigger] cmds.contains_key(k) ==> k < limit && spec_u16_at(buf, k as int) is Some
        && cmd_len_ok(buf, k as int, cmds[k] as int)
}

pub open spec fn window(buf: Seq<u8>) -> int {
    if buf.len() < REACH { buf.len() as int } else { REACH as int }
}

/// A reference as plain values: (at, offset, end, kind, slot, rendering).
pub type RefView = (usize, usize, usize, RefKind, Option<usize>, Seq<char>);

pub open spec fn ref_view(s: StringRef) -> RefView {
    (s.at, s.offset, s.end, s.kind, s.slot, s.jp@)
}

/// The walk's state as values, but for the positions it has followed.
pub ghost struct WalkVals {
    pub work: Seq<usize>,
    pub strings: Seq<RefView>,
    pub steps: usize,
    pub sentinel: bool,
    pub unknown: Map<u32, usize>,
    pub arrays: usize,
    pub targets: usize,
    pub cmds: Map<u32, usize>,
}

/// `x + n`, held at the top of `usize`.
pub open spec fn sat_add(x: usize, n: int) -> usize {
    if x + n > usize::MAX {
        usize::MAX
    } else {
        (x + n) as usize
    }
}

/// The string the command at `cur` names directly, if it names one: a
/// nonzero even offset inside the window, not a 0x0306 game-state selector,
/// whose terminated run holds a glyph and no sentinel.
pub open spec fn direct_string(buf: Seq<u8>, glyphs: Map<u16, String>, limit: int, cur: int, op: u16) -> Seq<RefView> {
    match spec_text_operand(op) {
        None => Seq::empty(),
        Some(i) => match spec_u16_at(buf, cur + i * 2) {
            None => Seq::empty(),
            Some(raw) => {
                let off = raw as int;
                if !(op == 0x0306 && raw < 116) && off > 0 && off < limit && off % 2 == 0 {
                    match spec_read_codes(buf, off, DECODE_LIMIT as int) {
                        Some(codes) => if spec_count_glyphs(codes) > 0 && !codes.contains(END) {
                            seq![(cur as usize, off as usize, (off + codes.len() * 2 + 2) as usize, RefKind::Direct(op), None::<usize>,
                                spec_render(codes, glyphs))]
                        } else {
                            Seq::empty()
                        },
                        None => Seq::empty(),
                    }
                } else {
                    Seq::empty()
                }
            },
        },
    }
}

/// `v` with its lengths table recording `n` for the command at `cur`.
pub open spec fn with_cmd(v: WalkVals, cur: int, n: int) -> WalkVals {
    WalkVals { cmds: v.cmds.insert(cur as u32, n as usize), ..v }
}

/// Follow the command at `cur`, a position not followed before: record it,
/// the string it names, and the positions control can go next.
pub open spec fn visit(buf: Seq<u8>, glyphs: Map<u16, String>, limit: int, v: WalkVals, cur: int) -> WalkVals {
    match spec_u16_at(buf, cur) {
        None => v,
        Some(op) => {
            let v1 = WalkVals { steps: (v.steps + 1) as usize, ..v };
            if op == END {
                with_cmd(WalkVals { sentinel: true, ..v1 }, cur, 1)
            } else if op == PAD_OP {
                with_cmd(WalkVals { work: v1.work.push((cur + 2) as usize), ..v1 }, cur, 1)
            } else {
                let v2 = WalkVals { strings: v1.strings + direct_string(buf, glyphs, limit, cur, op), ..v1 };
                if spec_goto(op) is Some {
                    let i = spec_goto(op).unwrap() as int;
                    if op == 0x0302 || op == 0x080b {
                        let ts = jump_from(buf, cur + i * 2, limit, limit, Seq::empty());
                        with_cmd(WalkVals {
                            targets: sat_add(v2.targets, ts.len() as int),
                            arrays: sat_add(v2.arrays, 1),
                            work: v2.work + ts,
                            ..v2
                        }, cur, i + ts.len())
                    } else {
                        let t = operand_target(buf, cur, i, limit);
                        with_cmd(WalkVals {
                            work: v2.work + t + (if op == 0x0806 { seq![(cur + CALL_LEN * 2) as usize] } else { Seq::empty() }),
                            targets: sat_add(v2.targets, t.len() as int),
                            ..v2
                        }, cur, i + 1)
                    }
                } else if spec_branch(op) is Some {
                    let (wd, fall) = spec_branch(op).unwrap();
                    let t = operand_target(buf, cur, wd as int, limit);
                    with_cmd(WalkVals {
                        work: v2.work + t + seq![(cur + fall * 2) as usize],
                        targets: sat_add(v2.targets, t.len() as int),
                        ..v2
                    }, cur, fall as int)
                } else if op == RET {
                    with_cmd(v2, cur, 1)
                } else {
                    let pt = if op == 0x0401 { pair_targets(buf, cur, limit, spec_w(buf, cur, 1)) } else { Seq::empty() };
                    let v3 = WalkVals { work: v2.work + pt, targets: sat_add(v2.targets, pt.len() as int), ..v2 };
                    match spec_advance(buf, cur, op) {
                        Some(n) => with_cmd(WalkVals { work: v3.work.push((cur + n * 2) as usize), ..v3 }, cur, n),
                        None => {
                            let prev = if v3.unknown.contains_key(op as u32) { v3.unknown[op as u32] } else { 0 };
                            with_cmd(WalkVals {
                                unknown: if prev < usize::MAX { v3.unknown.insert(op as u32, (prev + 1) as usize) } else { v3.unknown },
                                ..v3
                            }, cur, 0)
                        },
                    }
                }
            }
        },
    }
}

/// The walk from `v`, `seen` holding the positions already followed: take
/// the last pending position, follow it unless it lies outside the window
/// or was followed before, and go on until nothing is pending.
pub open spec fn walk_from(buf: Seq<u8>, glyphs: Map<u16, String>, limit: int, seen: Seq<bool>, v: WalkVals) -> WalkVals
    decreases limit - count_true(seen), v.work.len(),
{
    if v.work.len() == 0 || seen.len() != limit {
        v
    } else {
        let cur = v.work.last() as int;
        let rest = WalkVals { work: v.work.drop_last(), ..v };
        if cur >= limit || seen[cur] {
            walk_from(buf, glyphs, limit, seen, rest)
        } else {
            proof {
                lemma_count_true_set(seen, cur);
                lemma_count_true_bound(seen.update(cur, true));
            }
            walk_from(buf, glyphs, limit, seen.update(cur, true), visit(buf, glyphs, limit, rest, cur))
        }
    }
}

/// The walk of a script from its entry point, the word at byte 2.
pub open spec fn walk_spec(buf: Seq<u8>, glyphs: Map<u16, String>) -> WalkVals {
    walk_from(buf, glyphs, window(buf), none_seen(window(buf)), WalkVals {
        work: seq![(match spec_u16_at(buf, 2) { Some(e) => e as usize, None => 0usize })],
        strings: Seq::empty(),
        steps: 0,
        sentinel: false,
        unknown: Map::empty(),
        arrays: 0,
        targets: 0,
        cmds: Map::empty(),
    })
}

/// The walk's state held by the exec side, as values.
pub open spec fn walk_vals(work: Seq<usize>, strings: Seq<StringRef>, st: WalkStats) -> WalkVals {
    WalkVals {
        work,
        strings: strings.map_values(|s: StringRef| ref_view(s)),
        steps: st.steps,
        sentinel: st.sentinel,
        unknown: st.unknown@,
        arrays: st.arrays,
        targets: st.targets,
        cmds: st.cmds@,
    }
}

fn push_targets(work: &mut Vec<usize>, ts: &[usize])
    requires
        forall|j: int| 0 <= j < ts@.len() ==> #[trigger] ts@[j] <= 0x80000,
        forall|j: int| 0 <= j < old(work)@.len() ==> #[trigger] old(work)@[j] <= 0x80000,
    ensures
        final(work)@ == old(work)@ + ts@,
        forall|j: int| 0 <= j < final(work)@.len() ==> #[trigger] final(work)@[j] <= 0x80000,
{
    let ghost w0 = work@;
    let mut k: usize = 0;
    while k < ts.len()
        invariant
            k <= ts@.len(),
            work@ == w0 + ts@.take(k as int),
            forall|j: int| 0 <= j < ts@.len() ==> #[trigger] ts@[j] <= 0x80000,
            forall|j: int| 0 <= j < work@.len() ==> #[trigger] work@[j] <= 0x80000,
        decreases ts@.len() - k,
    {
        work.push(ts[k]);
        proof {
            assert(ts@.take(k + 1) =~= ts@.take(k as int).push(ts@[k as int]));
        }
        k = k + 1;
    }
    proof {
        assert(ts@.take(ts@.len() as int) =~= ts@);
    }
}

/// Follow the command at `cur`: the exec side of `visit`.
#[verifier::spinoff_prover]
#[verifier::rlimit(60)]
fn visit_exec(
    buf: &[u8],
    glyphs: &HashMap<u16, String>,
    limit: usize,
    cur: usize,
    work: &mut Vec<usize>,
    strings: &mut Vec<StringRef>,
    st: &mut WalkStats,
)
    requires
        limit == window(buf@),
        limit <= REACH,
        cur < limit,
        old(st).steps < REACH,
        forall|i: int| 0 <= i < old(work)@.len() ==> #[trigger] old(work)@[i] <= 0x80000,
        forall|i: int| 0 <= i < old(strings)@.len() ==> direct_ref_ok(buf@, glyphs@, limit as int, #[trigger] old(strings)@[i]),
        old(st).cmds.wf(),
        old(st).unknown.wf(),
        cmds_ok(buf@, limit as int, old(st).cmds@),
    ensures
        final(st).steps <= old(st).steps + 1,
        forall|i: int| 0 <= i < final(work)@.len() ==> #[trigger] final(work)@[i] <= 0x80000,
        forall|i: int| 0 <= i < final(strings)@.len() ==> direct_ref_ok(buf@, glyphs@, limit as int, #[trigger] final(strings)@[i]),
        final(st).cmds.wf(),
        final(st).unknown.wf(),
        cmds_ok(buf@, limit as int, final(st).cmds@),
        walk_vals(final(work)@, final(strings)@, *final(st)) == visit(buf@, glyphs@, limit as int, walk_vals(old(work)@, old(strings)@,
            *old(st)), cur as int),
{
    let ghost v0 = walk_vals(work@, strings@, *st);
    let op = match u16at(buf, cur) {
        Some(o) => o,
        None => {
            return;
        },
    };
    st.steps = st.steps + 1;
    if op == END {
        st.sentinel = true;
        st.cmds.insert(cur as u32, 1);
        return;
    }
    if op == PAD_OP {
        st.cmds.insert(cur as u32, 1);
        work.push(cur + 2);
        return;
    }

    let ghost s_before = strings@;
    match text_operand(op) {
        Some(i) => {
            // 0x0306 word 3 is polymorphic: only the default arm passes it
            // on as a file offset; 0..22 and 100..115 select a game-state
            // source instead.
            match u16at(buf, cur + i * 2) {
                Some(raw) => {
                    let off = raw as usize;
                    // a glyph array is halfword-aligned by construction, so an
                    // odd offset is a misread rather than text
                    if !(op == 0x0306 && raw < 116) && off > 0 && off < limit && off % 2 == 0 {
                        match read_codes(buf, off, DECODE_LIMIT) {
                            Some(codes) => {
                                if count_glyphs(codes.as_slice()) > 0 && !contains_code(codes.as_slice(), END) {
                                    let jp = render(codes.as_slice(), glyphs);
                                    let s = StringRef {
                                        at: cur,
                                        offset: off,
                                        end: off + codes.len() * 2 + 2,
                                        kind: RefKind::Direct(op),
                                        slot: None,
                                        jp,
                                    };
                                    strings.push(s);
                                }
                            },
                            None => {},
                        }
                    }
                },
                None => {},
            }
        },
        None => {},
    }
    proof {
        assert(strings@.map_values(|s: StringRef| ref_view(s)) =~= s_before.map_values(|s: StringRef| ref_view(s)) + direct_string(buf@,
            glyphs@, limit as int, cur as int, op));
    }

    match goto(op) {
        Some(i) => {
            if op == 0x0302 || op == 0x080b {
                let targets = jump_array(buf, cur + i * 2, limit);
                st.targets = st.targets.saturating_add(targets.len());
                st.arrays = st.arrays.saturating_add(1);
                st.cmds.insert(cur as u32, i + targets.len());
                push_targets(work, targets.as_slice());
                return;
            }
            let ghost w1 = work@;
            match u16at(buf, cur + i * 2) {
                Some(t) => {
                    let t = t as usize;
                    if t > 0 && t < limit {
                        work.push(t);
                        st.targets = st.targets.saturating_add(1);
                    }
                },
                None => {},
            }
            proof {
                assert(work@ =~= w1 + operand_target(buf@, cur as int, i as int, limit as int));
            }
            let ghost w2 = work@;
            if op == 0x0806 {
                work.push(cur + CALL_LEN * 2);
            }
            proof {
                assert(work@ =~= w2 + (if op == 0x0806 { seq![(cur + CALL_LEN * 2) as usize] } else { Seq::<usize>::empty() }));
            }
            st.cmds.insert(cur as u32, i + 1);
            return;
        },
        None => {},
    }
    match branch(op) {
        Some((wd, fall)) => {
            let ghost w1 = work@;
            match u16at(buf, cur + wd * 2) {
                Some(t) => {
                    let t = t as usize;
                    if t > 0 && t < limit {
                        work.push(t);
                        st.targets = st.targets.saturating_add(1);
                    }
                },
                None => {},
            }
            proof {
                assert(work@ =~= w1 + operand_target(buf@, cur as int, wd as int, limit as int));
            }
            let ghost w2 = work@;
            work.push(cur + fall * 2);
            proof {
                assert(work@ =~= w2 + seq![(cur + fall * 2) as usize]);
            }
            st.cmds.insert(cur as u32, fall);
            return;
        },
        None => {},
    }
    if op == RET {
        st.cmds.insert(cur as u32, 1);
        return;
    }

    let ghost w1 = work@;
    let mut pushed: usize = 0;
    if op == 0x0401 {
        // n (mask, target) pairs from word 1; 800ce0f4 commits the cursor
        // wherever the walk stopped
        let pairs = w_at(buf, cur, 1);
        let mut k: usize = 0;
        while k < pairs
            invariant
                k <= pairs <= 0xffff,
                cur < REACH,
                limit <= REACH,
                pushed <= k,
                pairs == spec_w(buf@, cur as int, 1),
                work@ == w1 + pair_targets(buf@, cur as int, limit as int, k as int),
                pushed == pair_targets(buf@, cur as int, limit as int, k as int).len(),
                forall|j: int| 0 <= j < work@.len() ==> #[trigger] work@[j] <= 0x80000,
            decreases pairs - k,
        {
            match u16at(buf, cur + (3 + 2 * k) * 2) {
                Some(t) => {
                    let t = t as usize;
                    if t > 0 && t < limit {
                        work.push(t);
                        pushed = pushed + 1;
                    }
                },
                None => {},
            }
            proof {
                assert(work@ =~= w1 + pair_targets(buf@, cur as int, limit as int, k + 1));
            }
            k = k + 1;
        }
    }
    proof {
        if op != 0x0401 {
            assert(work@ =~= w1 + Seq::<usize>::empty());
        }
    }
    st.targets = st.targets.saturating_add(pushed);

    match advance(buf, cur, op) {
        Some(n) => {
            st.cmds.insert(cur as u32, n);
            work.push(cur + n * 2);
        },
        None => {
            let prev = match st.unknown.get(op as u32) {
                Some(c) => *c,
                None => 0,
            };
            if prev < usize::MAX {
                st.unknown.insert(op as u32, prev + 1);
            }
            st.cmds.insert(cur as u32, 0);
        },
    }
}

/// Discover every reachable command from the entry point.
pub fn walk(buf: &[u8], glyphs: &HashMap<u16, String>) -> (r: (Vec<StringRef>, WalkStats))
    ensures
        forall|i: int| 0 <= i < r.0@.len() ==> direct_ref_ok(buf@, glyphs@, window(buf@), #[trigger] r.0@[i]),
        r.1.cmds.wf(),
        r.1.unknown.wf(),
        cmds_ok(buf@, window(buf@), r.1.cmds@),
        walk_vals(Seq::empty(), r.0@, r.1) == walk_spec(buf@, glyphs@),
{
    let limit = if buf.len() < REACH { buf.len() } else { REACH };
    let mut st = WalkStats {
        steps: 0,
        sentinel: false,
        unknown: SortedMap::new(),
        arrays: 0,
        targets: 0,
        cmds: SortedMap::new(),
    };
    let mut strings: Vec<StringRef> = Vec::new();
    let mut seen = all_false(limit);
    let mut seen_n: usize = 0;
    // the entry point: the directory ends where the command stream begins
    let mut work: Vec<usize> = Vec::new();
    work.push(match u16at(buf, 2) {
        Some(e) => e as usize,
        None => 0,
    });
    let ghost answer = walk_spec(buf@, glyphs@);
    proof {
        assert(seen@ =~= none_seen(limit as int));
        assert(walk_vals(work@, strings@, st) =~= WalkVals {
            work: seq![(match spec_u16_at(buf@, 2) { Some(e) => e as usize, None => 0usize })],
            strings: Seq::empty(),
            steps: 0,
            sentinel: false,
            unknown: Map::empty(),
            arrays: 0,
            targets: 0,
            cmds: Map::empty(),
        }) by {
            assert(strings@.map_values(|s: StringRef| ref_view(s)) =~= Seq::<RefView>::empty());
            assert(st.unknown@ =~= Map::<u32, usize>::empty());
            assert(st.cmds@ =~= Map::<u32, usize>::empty());
        }
    }

    while work.len() > 0
        invariant
            limit == window(buf@),
            limit <= REACH,
            seen@.len() == limit,
            seen_n == count_true(seen@),
            st.steps <= seen_n,
            forall|i: int| 0 <= i < work@.len() ==> #[trigger] work@[i] <= 0x80000,
            forall|i: int| 0 <= i < strings@.len() ==> direct_ref_ok(buf@, glyphs@, limit as int, #[trigger] strings@[i]),
            st.cmds.wf(),
            st.unknown.wf(),
            cmds_ok(buf@, limit as int, st.cmds@),
            answer == walk_spec(buf@, glyphs@),
            walk_from(buf@, glyphs@, limit as int, seen@, walk_vals(work@, strings@, st)) == answer,
        decreases limit - seen_n, work@.len(),
    {
        proof {
            lemma_count_true_bound(seen@);
        }
        let ghost v0 = walk_vals(work@, strings@, st);
        let cur = work.pop().unwrap();
        proof {
            assert(walk_vals(work@, strings@, st) == WalkVals { work: v0.work.drop_last(), ..v0 });
        }
        if cur >= limit || seen[cur] {
            continue;
        }
        proof {
            lemma_count_true_set(seen@, cur as int);
        }
        seen.set(cur, true);
        seen_n = seen_n + 1;
        proof {
            lemma_count_true_bound(seen@);
        }
        visit_exec(buf, glyphs, limit, cur, &mut work, &mut strings, &mut st);
    }
    proof {
        assert(walk_vals(work@, strings@, st).work.len() == 0);
        assert(work@ =~= Seq::<usize>::empty());
    }
    (strings, st)
}

/// Whether `code` occurs in `codes`.
pub fn contains_code(codes: &[u16], code: u16) -> (r: bool)
    ensures
        r == codes@.contains(code),
{
    let mut i: usize = 0;
    while i < codes.len()
        invariant
            i <= codes@.len(),
            forall|j: int| 0 <= j < i ==> codes@[j] != code,
        decreases codes@.len() - i,
    {
        if codes[i] == code {
            return true;
        }
        i = i + 1;
    }
    false
}


/// `s` names a terminated string: its codes start at `offset`, it ends one
/// past the terminator, and `jp` is the rendering.
pub open spec fn string_ok(buf: Seq<u8>, glyphs: Map<u16, String>, s: StringRef) -> bool {
    &&& s.offset % 2 == 0
    &&& s.end >= s.offset + 2
    &&& (s.end - s.offset) % 2 == 0
    &&& term_at(buf, s.offset as int, (s.end - s.offset - 2) / 2)
    &&& s.jp@ == spec_render(run_codes(buf, s.offset as int, (s.end - s.offset - 2) / 2), glyphs)
}

/// The string's codes.
pub open spec fn ref_codes(buf: Seq<u8>, s: StringRef) -> Seq<u16> {
    run_codes(buf, s.offset as int, (s.end - s.offset - 2) / 2)
}

proof fn lemma_string_at_ok(buf: Seq<u8>, glyphs: Map<u16, String>, s: StringRef, lim: int)
    requires
        string_at(buf, glyphs, s, lim),
    ensures
        string_ok(buf, glyphs, s),
        spec_read_codes(buf, s.offset as int, lim).unwrap() == ref_codes(buf, s),
{
    let n = choose|n: int| 0 <= n < lim && term_at(buf, s.offset as int, n);
    assert(run_codes(buf, s.offset as int, n).len() == n);
    assert((s.end - s.offset - 2) / 2 == n);
}

/// Two string spans overlap without one starting where the other does.
pub open spec fn overlaps(off: int, end: int, s: StringRef) -> bool {
    (off < s.offset && s.offset < end) || (s.offset < off && off < s.end)
}

/// `s` is a slot reference: the halfword at its slot is its offset, inside
/// `[lo, hi)` and not a command byte, and the string ends by `hi`.
pub open spec fn slot_ref_ok(buf: Seq<u8>, glyphs: Map<u16, String>, lo: int, cmds: Seq<bool>, s: StringRef) -> bool {
    &&& s.slot == Some(s.at)
    &&& s.at + 2 <= cmds.len()
    &&& !cmds[s.at as int]
    &&& spec_u16_at(buf, s.at as int) == Some(s.offset as u16)
    &&& lo <= s.offset < cmds.len()
    &&& !cmds[s.offset as int]
    &&& s.end <= cmds.len()
    &&& string_ok(buf, glyphs, s)
}

/// The references as values.
pub open spec fn views(refs: Seq<StringRef>) -> Seq<RefView> {
    refs.map_values(|s: StringRef| ref_view(s))
}

/// `overlaps`, of a reference held as values.
pub open spec fn overlaps_view(off: int, end: int, r: RefView) -> bool {
    (off < r.1 && r.1 < end) || (r.1 < off && off < r.2)
}

/// Whether the span `[off, end)` overlaps any of `rs`.
pub open spec fn hits(off: int, end: int, rs: Seq<RefView>) -> bool {
    exists|j: int| 0 <= j < rs.len() && overlaps_view(off, end, #[trigger] rs[j])
}

/// Whether the span `[off, end)` overlaps any of `refs`.
fn overlaps_any(refs: &[StringRef], off: usize, end: usize) -> (r: bool)
    ensures
        r == exists|i: int| 0 <= i < refs@.len() && overlaps(off as int, end as int, #[trigger] refs@[i]),
        r == hits(off as int, end as int, views(refs@)),
{
    let mut i: usize = 0;
    while i < refs.len()
        invariant
            i <= refs@.len(),
            forall|j: int| 0 <= j < i ==> !overlaps(off as int, end as int, #[trigger] refs@[j]),
        decreases refs@.len() - i,
    {
        let s = &refs[i];
        if (off < s.offset && s.offset < end) || (s.offset < off && off < s.end) {
            proof {
                assert(views(refs@)[i as int] == ref_view(refs@[i as int]));
                assert(overlaps_view(off as int, end as int, views(refs@)[i as int]));
            }
            return true;
        }
        i = i + 1;
    }
    proof {
        assert forall|j: int| 0 <= j < views(refs@).len() implies !overlaps_view(off as int, end as int, #[trigger] views(refs@)[j]) by {
            assert(views(refs@)[j] == ref_view(refs@[j]));
            assert(!overlaps(off as int, end as int, refs@[j]));
        }
    }
    false
}

/// The entries of the table at `base`, from slot `i` on, appended to `out`:
/// each slot must hold an even offset at or past `lo`, outside the commands,
/// of a terminated string of 1 to `MAX_STR` codes that ends inside the window
/// and overlaps neither a known string nor an entry already taken; the first
/// slot that fails ends the table.
pub open spec fn table_row(
    buf: Seq<u8>,
    glyphs: Map<u16, String>,
    lo: int,
    cmds: Seq<bool>,
    known: Seq<RefView>,
    t: int,
    base: int,
    i: int,
    out: Seq<RefView>,
) -> Seq<RefView>
    decreases MAX_TABLE - i,
{
    let hi = cmds.len() as int;
    let slot = base + 2 * i;
    if i >= MAX_TABLE || slot < 0 || slot + 2 > hi || cmds[slot] {
        out
    } else {
        match spec_u16_at(buf, slot) {
            None => out,
            Some(o) => {
                let off = o as int;
                if off % 2 != 0 || !(lo <= off && off < hi) || cmds[off] {
                    out
                } else {
                    match spec_read_codes(buf, off, usize::MAX as int) {
                        None => out,
                        Some(codes) => {
                            let end = off + codes.len() * 2 + 2;
                            if codes.len() < 1 || codes.len() > MAX_STR || end > hi || hits(off, end, known) || hits(off, end, out) {
                                out
                            } else {
                                table_row(buf, glyphs, lo, cmds, known, t, base, i + 1,
                                    out.push((slot as usize, off as usize, end as usize, RefKind::Table(t as usize), Some(slot as usize),
                                        spec_render(codes, glyphs))))
                            }
                        },
                    }
                }
            },
        }
    }
}

/// The string-table entries of directory entries `t` on, appended to `out`:
/// an entry whose word is an even offset past the directory, inside the
/// window and outside the commands, is a table.
pub open spec fn tables_from(
    buf: Seq<u8>,
    glyphs: Map<u16, String>,
    dir_words: int,
    cmds: Seq<bool>,
    known: Seq<RefView>,
    t: int,
    out: Seq<RefView>,
) -> Seq<RefView>
    decreases dir_words - t,
{
    if t >= dir_words || t < 0 {
        out
    } else {
        let next = match spec_u16_at(buf, 2 * t) {
            None => out,
            Some(b) => {
                let base = b as int;
                if base % 2 != 0 || !(2 * dir_words <= base && base < cmds.len()) || cmds[base] {
                    out
                } else {
                    table_row(buf, glyphs, 2 * dir_words, cmds, known, t, base, 0, out)
                }
            },
        };
        tables_from(buf, glyphs, dir_words, cmds, known, t + 1, next)
    }
}

/// The string tables FUN_800D2D0C reads: dirEntry(t) is an array of u16 string
/// offsets. Only a handful of files have real ones, so every entry has to earn
/// its place and the walk stops at the first that does not.
pub fn tables(
    buf: &[u8],
    dir_words: usize,
    cmds: &[bool],
    known: &[StringRef],
    glyphs: &HashMap<u16, String>,
) -> (out: Vec<StringRef>)
    requires
        cmds@.len() <= REACH,
        dir_words <= 0x8000,
    ensures
        forall|i: int| 0 <= i < out@.len() ==> {
            &&& slot_ref_ok(buf@, glyphs@, 2 * dir_words, cmds@, #[trigger] out@[i])
            &&& out@[i].kind matches RefKind::Table(t) && 2 <= t < dir_words
            &&& 1 <= ref_codes(buf@, out@[i]).len() <= MAX_STR
            &&& forall|j: int| 0 <= j < known@.len() ==> !overlaps(out@[i].offset as int, out@[i].end as int, #[trigger] known@[j])
        },
        views(out@) == tables_from(buf@, glyphs@, dir_words as int, cmds@, views(known@), 2, Seq::empty()),
{
    let lo = dir_words * 2;
    let hi = cmds.len();
    let mut out: Vec<StringRef> = Vec::new();
    let mut t: usize = 2;
    let ghost answer = tables_from(buf@, glyphs@, dir_words as int, cmds@, views(known@), 2, Seq::empty());
    proof {
        assert(views(out@) =~= Seq::<RefView>::empty());
    }
    while t < dir_words
        invariant
            lo == 2 * dir_words,
            hi == cmds@.len(),
            hi <= REACH,
            dir_words <= 0x8000,
            t >= 2,
            answer == tables_from(buf@, glyphs@, dir_words as int, cmds@, views(known@), t as int, views(out@)),
            forall|i: int| 0 <= i < out@.len() ==> {
                &&& slot_ref_ok(buf@, glyphs@, 2 * dir_words, cmds@, #[trigger] out@[i])
                &&& out@[i].kind matches RefKind::Table(tt) && 2 <= tt < dir_words
                &&& 1 <= ref_codes(buf@, out@[i]).len() <= MAX_STR
                &&& forall|j: int| 0 <= j < known@.len() ==> !overlaps(out@[i].offset as int, out@[i].end as int, #[trigger] known@[j])
            },
        decreases dir_words - t,
    {
        let base = match u16at(buf, t * 2) {
            Some(b) => b as usize,
            None => {
                t = t + 1;
                continue;
            },
        };
        if base % 2 != 0 || !(lo <= base && base < hi) || cmds[base] {
            t = t + 1;
            continue;
        }
        let mut i: usize = 0;
        let ghost row = table_row(buf@, glyphs@, lo as int, cmds@, views(known@), t as int, base as int, 0, views(out@));
        while i < MAX_TABLE
            invariant
                lo == 2 * dir_words,
                hi == cmds@.len(),
                hi <= REACH,
                base < hi,
                2 <= t < dir_words,
                dir_words <= 0x8000,
                forall|i: int| 0 <= i < out@.len() ==> {
                    &&& slot_ref_ok(buf@, glyphs@, 2 * dir_words, cmds@, #[trigger] out@[i])
                    &&& out@[i].kind matches RefKind::Table(tt) && 2 <= tt < dir_words
                    &&& 1 <= ref_codes(buf@, out@[i]).len() <= MAX_STR
                    &&& forall|j: int| 0 <= j < known@.len() ==> !overlaps(out@[i].offset as int, out@[i].end as int, #[trigger] known@[j])
                },
                row == table_row(buf@, glyphs@, lo as int, cmds@, views(known@), t as int, base as int, i as int, views(out@)),
            ensures
                row == views(out@),
            decreases MAX_TABLE - i,
        {
            let slot = base + i * 2;
            if slot + 2 > hi || cmds[slot] {
                break;
            }
            let off = match u16at(buf, slot) {
                Some(o) => o as usize,
                None => break,
            };
            if off % 2 != 0 || !(lo <= off && off < hi) || cmds[off] {
                break;
            }
            let codes = match read_codes(buf, off, usize::MAX) {
                Some(c) => c,
                None => break,
            };
            if codes.len() < 1 || codes.len() > MAX_STR || off + codes.len() * 2 + 2 > hi {
                break;
            }
            let end = off + codes.len() * 2 + 2;
            if overlaps_any(known, off, end) || overlaps_any(out.as_slice(), off, end) {
                break;
            }
            let jp = render(codes.as_slice(), glyphs);
            let s = StringRef { at: slot, offset: off, end, kind: RefKind::Table(t), slot: Some(slot), jp };
            proof {
                lemma_string_at_ok(buf@, glyphs@, s, usize::MAX as int);
            }
            let ghost before = views(out@);
            out.push(s);
            proof {
                assert(views(out@) =~= before.push(ref_view(s)));
            }
            i = i + 1;
        }
        t = t + 1;
    }
    out
}

/// Whether `v` occurs among the first `n` entries of `xs`.
fn seen_before(xs: &[usize], n: usize, v: usize) -> (r: bool)
    requires
        n <= xs@.len(),
    ensures
        r == exists|i: int| 0 <= i < n && xs@[i] == v,
{
    let mut i: usize = 0;
    while i < n
        invariant
            i <= n <= xs@.len(),
            forall|j: int| 0 <= j < i ==> xs@[j] != v,
        decreases n - i,
    {
        if xs[i] == v {
            return true;
        }
        i = i + 1;
    }
    false
}

/// The entries of the `OBJ_TEXT` array at `base`, from slot `i` on, appended
/// to `out`: each slot must hold an even offset at or past `lo`, outside the
/// commands, of a terminated string of fewer than `MAX_STR` codes with a glyph
/// among them, that ends inside the window and overlaps neither a known
/// string nor an entry already taken; the first slot that fails ends the array.
pub open spec fn obj_row(
    buf: Seq<u8>,
    glyphs: Map<u16, String>,
    lo: int,
    cmds: Seq<bool>,
    known: Seq<RefView>,
    base: int,
    i: int,
    out: Seq<RefView>,
) -> Seq<RefView>
    decreases MAX_TABLE - i,
{
    let hi = cmds.len() as int;
    let slot = base + 2 * i;
    if i >= MAX_TABLE || slot < 0 || slot + 2 > hi || cmds[slot] {
        out
    } else {
        match spec_u16_at(buf, slot) {
            None => out,
            Some(o) => {
                let off = o as int;
                if off % 2 != 0 || !(lo <= off && off < hi) || cmds[off] {
                    out
                } else {
                    match spec_read_codes(buf, off, MAX_STR as int) {
                        None => out,
                        Some(codes) => {
                            let end = off + codes.len() * 2 + 2;
                            if codes.len() == 0 || spec_count_glyphs(codes) == 0 || end > hi || hits(off, end, known) || hits(off, end, out) {
                                out
                            } else {
                                obj_row(buf, glyphs, lo, cmds, known, base, i + 1,
                                    out.push((slot as usize, off as usize, end as usize, RefKind::ObjText(base as usize), Some(slot as usize),
                                        spec_render(codes, glyphs))))
                            }
                        },
                    }
                }
            },
        }
    }
}

/// The array entries of `bases[k..]`, appended to `out`: a base seen earlier
/// in the list, odd, before `lo`, outside the window or on a command is passed
/// over.
pub open spec fn obj_arrays_from(
    buf: Seq<u8>,
    glyphs: Map<u16, String>,
    bases: Seq<usize>,
    lo: int,
    cmds: Seq<bool>,
    known: Seq<RefView>,
    k: int,
    out: Seq<RefView>,
) -> Seq<RefView>
    decreases bases.len() - k,
{
    if k >= bases.len() || k < 0 {
        out
    } else {
        let base = bases[k] as int;
        let next = if bases.take(k).contains(bases[k]) || base % 2 != 0 || !(lo <= base && base < cmds.len()) || cmds[base] {
            out
        } else {
            obj_row(buf, glyphs, lo, cmds, known, base, 0, out)
        };
        obj_arrays_from(buf, glyphs, bases, lo, cmds, known, k + 1, next)
    }
}

/// The strings an `OBJ_TEXT` command's array names. The array has no declared
/// length and no terminator, so it runs until a slot stops looking like one.
pub fn obj_text_arrays(
    buf: &[u8],
    bases: &[usize],
    lo: usize,
    cmds: &[bool],
    known: &[StringRef],
    glyphs: &HashMap<u16, String>,
) -> (out: Vec<StringRef>)
    requires
        cmds@.len() <= REACH,
    ensures
        forall|i: int| 0 <= i < out@.len() ==> {
            &&& slot_ref_ok(buf@, glyphs@, lo as int, cmds@, #[trigger] out@[i])
            &&& out@[i].kind matches RefKind::ObjText(b) && bases@.contains(b)
            &&& 1 <= ref_codes(buf@, out@[i]).len() < MAX_STR
            &&& spec_count_glyphs(ref_codes(buf@, out@[i])) > 0
            &&& forall|j: int| 0 <= j < known@.len() ==> !overlaps(out@[i].offset as int, out@[i].end as int, #[trigger] known@[j])
        },
        views(out@) == obj_arrays_from(buf@, glyphs@, bases@, lo as int, cmds@, views(known@), 0, Seq::empty()),
{
    let hi = cmds.len();
    let mut out: Vec<StringRef> = Vec::new();
    let mut bi: usize = 0;
    let ghost answer = obj_arrays_from(buf@, glyphs@, bases@, lo as int, cmds@, views(known@), 0, Seq::empty());
    proof {
        assert(views(out@) =~= Seq::<RefView>::empty());
    }
    while bi < bases.len()
        invariant
            hi == cmds@.len(),
            hi <= REACH,
            bi <= bases@.len(),
            answer == obj_arrays_from(buf@, glyphs@, bases@, lo as int, cmds@, views(known@), bi as int, views(out@)),
            forall|i: int| 0 <= i < out@.len() ==> {
                &&& slot_ref_ok(buf@, glyphs@, lo as int, cmds@, #[trigger] out@[i])
                &&& out@[i].kind matches RefKind::ObjText(b) && bases@.contains(b)
                &&& 1 <= ref_codes(buf@, out@[i]).len() < MAX_STR
                &&& spec_count_glyphs(ref_codes(buf@, out@[i])) > 0
                &&& forall|j: int| 0 <= j < known@.len() ==> !overlaps(out@[i].offset as int, out@[i].end as int, #[trigger] known@[j])
            },
        decreases bases@.len() - bi,
    {
        let base = bases[bi];
        let seen = seen_before(bases, bi, base);
        proof {
            assert(seen == bases@.take(bi as int).contains(base)) by {
                if seen {
                    let j = choose|j: int| 0 <= j < bi && bases@[j] == base;
                    assert(bases@.take(bi as int)[j] == base);
                }
                if bases@.take(bi as int).contains(base) {
                    let j = choose|j: int| 0 <= j < bases@.take(bi as int).len() && bases@.take(bi as int)[j] == base;
                    assert(bases@[j] == base);
                }
            }
        }
        if seen || base % 2 != 0 || !(lo <= base && base < hi) || cmds[base] {
            bi = bi + 1;
            continue;
        }
        let mut i: usize = 0;
        let ghost row = obj_row(buf@, glyphs@, lo as int, cmds@, views(known@), base as int, 0, views(out@));
        while i < MAX_TABLE
            invariant
                hi == cmds@.len(),
                hi <= REACH,
                base < hi,
                bi < bases@.len(),
                base == bases@[bi as int],
                row == obj_row(buf@, glyphs@, lo as int, cmds@, views(known@), base as int, i as int, views(out@)),
                forall|i: int| 0 <= i < out@.len() ==> {
                    &&& slot_ref_ok(buf@, glyphs@, lo as int, cmds@, #[trigger] out@[i])
                    &&& out@[i].kind matches RefKind::ObjText(b) && bases@.contains(b)
                    &&& 1 <= ref_codes(buf@, out@[i]).len() < MAX_STR
                    &&& spec_count_glyphs(ref_codes(buf@, out@[i])) > 0
                    &&& forall|j: int| 0 <= j < known@.len() ==> !overlaps(out@[i].offset as int, out@[i].end as int, #[trigger] known@[j])
                },
            ensures
                row == views(out@),
            decreases MAX_TABLE - i,
        {
            let slot = base + i * 2;
            if slot + 2 > hi || cmds[slot] {
                break;
            }
            let off = match u16at(buf, slot) {
                Some(o) => o as usize,
                None => break,
            };
            if off % 2 != 0 || !(lo <= off && off < hi) || cmds[off] {
                break;
            }
            let codes = match read_codes(buf, off, MAX_STR) {
                Some(c) => c,
                None => break,
            };
            if codes.len() == 0 || count_glyphs(codes.as_slice()) == 0 || off + codes.len() * 2 + 2 > hi {
                break;
            }
            let end = off + codes.len() * 2 + 2;
            if overlaps_any(known, off, end) || overlaps_any(out.as_slice(), off, end) {
                break;
            }
            let jp = render(codes.as_slice(), glyphs);
            let s = StringRef { at: slot, offset: off, end, kind: RefKind::ObjText(base), slot: Some(slot), jp };
            proof {
                lemma_string_at_ok(buf@, glyphs@, s, MAX_STR as int);
                assert(bases@[bi as int] == base);
            }
            let ghost before = views(out@);
            out.push(s);
            proof {
                assert(views(out@) =~= before.push(ref_view(s)));
            }
            i = i + 1;
        }
        bi = bi + 1;
    }
    out
}


/// The facts every reference a nested native table yields satisfies.
pub open spec fn native_ref_ok(
    buf: Seq<u8>,
    glyphs: Map<u16, String>,
    lo: int,
    cmds: Seq<bool>,
    outers: Seq<usize>,
    known: Seq<StringRef>,
    s: StringRef,
) -> bool {
    &&& slot_ref_ok(buf, glyphs, lo, cmds, s)
    &&& s.kind matches RefKind::Native(o) && outers.contains(o)
    &&& 1 <= ref_codes(buf, s).len() < MAX_STR
    &&& !ref_codes(buf, s).contains(END)
    &&& forall|j: int| 0 <= j < known.len() ==> !overlaps(s.offset as int, s.end as int, #[trigger] known[j])
}

/// The first `count` words of the outer table at `outer`.
pub open spec fn outer_words(buf: Seq<u8>, outer: int, count: int) -> Seq<usize> {
    Seq::new(count as nat, |i: int| spec_u16_at(buf, outer + 2 * i).unwrap() as usize)
}

/// Entry `j` of an outer table is an inner table: even, at or past the first
/// inner table, inside the window, not on a command, and before the next one.
pub open spec fn inner_ok(first: int, cmds: Seq<bool>, bases: Seq<usize>, j: int) -> bool {
    &&& bases[j] % 2 == 0
    &&& first <= bases[j] < cmds.len()
    &&& !cmds[bases[j] as int]
    &&& j + 1 < bases.len() ==> bases[j] < bases[j + 1]
}

/// The inner-table offsets of the outer table at `outer`, when its shape
/// checks out: its first word points past it by a whole number of words,
/// that many words are there, and each is an inner table in increasing order.
pub open spec fn outer_shape(buf: Seq<u8>, cmds: Seq<bool>, outer: int) -> Option<Seq<usize>> {
    let hi = cmds.len() as int;
    match spec_u16_at(buf, outer) {
        None => None,
        Some(v) => {
            let first = v as int;
            let count = (first - outer) / 2;
            if !(first > outer && first < hi && (first - outer) % 2 == 0) || count < 1 || count > MAX_TABLE {
                None
            } else if !(forall|i: int| 0 <= i < count ==> #[trigger] spec_u16_at(buf, outer + 2 * i) is Some) {
                None
            } else {
                let bases = outer_words(buf, outer, count);
                if bases[0] != first || !(forall|j: int| 0 <= j < count ==> #[trigger] inner_ok(first, cmds, bases, j)) {
                    None
                } else {
                    Some(bases)
                }
            }
        },
    }
}

/// The strings of the inner table at `base`, from slot `n` on, appended to
/// `cand`: `None` unless every slot before `table_end` up to a 0xffff holds an
/// even offset at or past `lo`, outside the commands, of a terminated string
/// of fewer than `MAX_STR` codes, none of them the sentinel, that ends inside
/// the window and overlaps no known string, no string already taken and no
/// string of this outer table.
pub open spec fn inner_row(
    buf: Seq<u8>,
    glyphs: Map<u16, String>,
    lo: int,
    cmds: Seq<bool>,
    known: Seq<RefView>,
    out: Seq<RefView>,
    outer: int,
    base: int,
    table_end: int,
    n: int,
    cand: Seq<RefView>,
) -> Option<Seq<RefView>>
    decreases MAX_TABLE - n,
{
    let hi = cmds.len() as int;
    let slot = base + 2 * n;
    if n >= MAX_TABLE || slot < 0 || slot + 2 > table_end || slot >= hi || cmds[slot] {
        None
    } else {
        match spec_u16_at(buf, slot) {
            None => None,
            Some(v) => if v == 0xffff {
                Some(cand)
            } else {
                let off = v as int;
                if off % 2 != 0 || !(lo <= off && off < hi) || cmds[off] {
                    None
                } else {
                    match spec_read_codes(buf, off, MAX_STR as int) {
                        None => None,
                        Some(codes) => {
                            let end = off + codes.len() * 2 + 2;
                            if codes.len() == 0 || codes.contains(END) || end > hi || hits(off, end, known) || hits(off, end, out)
                                || hits(off, end, cand) {
                                None
                            } else {
                                inner_row(buf, glyphs, lo, cmds, known, out, outer, base, table_end, n + 1,
                                    cand.push((slot as usize, off as usize, end as usize, RefKind::Native(outer as usize),
                                        Some(slot as usize), spec_render(codes, glyphs))))
                            }
                        },
                    }
                }
            },
        }
    }
}

/// The strings of inner tables `bases[k..]`, appended to `cand`; each table
/// ends where the next one starts, the last at the window's end.
pub open spec fn inner_rows(
    buf: Seq<u8>,
    glyphs: Map<u16, String>,
    lo: int,
    cmds: Seq<bool>,
    known: Seq<RefView>,
    out: Seq<RefView>,
    outer: int,
    bases: Seq<usize>,
    k: int,
    cand: Seq<RefView>,
) -> Option<Seq<RefView>>
    decreases bases.len() - k,
{
    if k >= bases.len() || k < 0 {
        Some(cand)
    } else {
        let table_end = if k + 1 < bases.len() { bases[k + 1] as int } else { cmds.len() as int };
        match inner_row(buf, glyphs, lo, cmds, known, out, outer, bases[k] as int, table_end, 0, cand) {
            None => None,
            Some(c) => inner_rows(buf, glyphs, lo, cmds, known, out, outer, bases, k + 1, c),
        }
    }
}

/// The strings of the outer tables `outers[k..]`, appended to `out`: an outer
/// table seen earlier in the list, odd, before `lo`, outside the window or on
/// a command is passed over, and one whose shape or any of whose strings
/// fails yields nothing.
pub open spec fn natives_from(
    buf: Seq<u8>,
    glyphs: Map<u16, String>,
    outers: Seq<usize>,
    lo: int,
    cmds: Seq<bool>,
    known: Seq<RefView>,
    k: int,
    out: Seq<RefView>,
) -> Seq<RefView>
    decreases outers.len() - k,
{
    if k >= outers.len() || k < 0 {
        out
    } else {
        let outer = outers[k] as int;
        let next = if outers.take(k).contains(outers[k]) || outer % 2 != 0 || !(lo <= outer && outer < cmds.len()) || cmds[outer] {
            out
        } else {
            match outer_shape(buf, cmds, outer) {
                None => out,
                Some(bases) => match inner_rows(buf, glyphs, lo, cmds, known, out, outer, bases, 0, Seq::empty()) {
                    None => out,
                    Some(c) => out + c,
                },
            }
        };
        natives_from(buf, glyphs, outers, lo, cmds, known, k + 1, next)
    }
}

/// Discover the nested string tables passed to native routines by 0x0808: an
/// outer array of inner-array offsets whose first entry proves its count, and
/// inner arrays of string offsets each ended by 0xffff. An outer table yields
/// its strings only when the whole shape checks out.
#[verifier::spinoff_prover]
#[verifier::rlimit(40)]
pub fn native_tables(
    buf: &[u8],
    outers: &[usize],
    lo: usize,
    hi: usize,
    cmds: &[bool],
    known: &[StringRef],
    glyphs: &HashMap<u16, String>,
) -> (out: Vec<StringRef>)
    requires
        hi == cmds@.len(),
        hi <= REACH,
    ensures
        forall|i: int| 0 <= i < out@.len() ==> native_ref_ok(buf@, glyphs@, lo as int, cmds@, outers@, known@, #[trigger] out@[i]),
        views(out@) == natives_from(buf@, glyphs@, outers@, lo as int, cmds@, views(known@), 0, Seq::empty()),
{
    let mut out: Vec<StringRef> = Vec::new();
    let ghost answer = natives_from(buf@, glyphs@, outers@, lo as int, cmds@, views(known@), 0, Seq::empty());
    proof {
        assert(views(out@) =~= Seq::<RefView>::empty());
    }
    let mut oi: usize = 0;
    while oi < outers.len()
        invariant
            hi == cmds@.len(),
            hi <= REACH,
            oi <= outers@.len(),
            forall|i: int| 0 <= i < out@.len() ==> native_ref_ok(buf@, glyphs@, lo as int, cmds@, outers@, known@, #[trigger] out@[i]),
            answer == natives_from(buf@, glyphs@, outers@, lo as int, cmds@, views(known@), oi as int, views(out@)),
        decreases outers@.len() - oi,
    {
        let outer = outers[oi];
        let seen = seen_before(outers, oi, outer);
        proof {
            assert(seen == outers@.take(oi as int).contains(outer)) by {
                if seen {
                    let j = choose|j: int| 0 <= j < oi && outers@[j] == outer;
                    assert(outers@.take(oi as int)[j] == outer);
                }
                if outers@.take(oi as int).contains(outer) {
                    let j = choose|j: int| 0 <= j < outers@.take(oi as int).len() && outers@.take(oi as int)[j] == outer;
                    assert(outers@[j] == outer);
                }
            }
        }
        oi = oi + 1;
        if seen || outer % 2 != 0 || !(lo <= outer && outer < hi) || cmds[outer] {
            continue;
        }
        let bases = match outer_bases(buf, cmds, outer) {
            Some(b) => b,
            None => continue,
        };
        let ghost shape = bases@;
        let ghost cand_answer = inner_rows(buf@, glyphs@, lo as int, cmds@, views(known@), views(out@), outer as int, shape, 0, Seq::empty());
        let mut candidate: Vec<StringRef> = Vec::new();
        proof {
            assert(views(candidate@) =~= Seq::<RefView>::empty());
        }
        let mut valid = true;
        let mut bi: usize = 0;
        while bi < bases.len()
            invariant_except_break
                valid,
                cand_answer == inner_rows(buf@, glyphs@, lo as int, cmds@, views(known@), views(out@), outer as int, shape, bi as int,
                    views(candidate@)),
            invariant
                hi == cmds@.len(),
                hi <= REACH,
                1 <= oi <= outers@.len(),
                outer == outers@[oi - 1],
                bases@ == shape,
                bi <= bases@.len(),
                forall|j: int| 0 <= j < bases@.len() ==> #[trigger] bases@[j] < hi,
                forall|i: int| 0 <= i < out@.len() ==> native_ref_ok(buf@, glyphs@, lo as int, cmds@, outers@, known@, #[trigger] out@[i]),
                forall|i: int| 0 <= i < candidate@.len() ==> native_ref_ok(buf@, glyphs@, lo as int, cmds@, outers@, known@, #[trigger] candidate@[i]),
            ensures
                valid ==> cand_answer == Some(views(candidate@)),
                !valid ==> cand_answer is None,
                forall|i: int| 0 <= i < candidate@.len() ==> native_ref_ok(buf@, glyphs@, lo as int, cmds@, outers@, known@, #[trigger] candidate@[i]),
            decreases bases@.len() - bi,
        {
            let base = bases[bi];
            let table_end = if bi + 1 < bases.len() { bases[bi + 1] } else { hi };
            let ghost row_answer = inner_row(buf@, glyphs@, lo as int, cmds@, views(known@), views(out@), outer as int, base as int,
                table_end as int, 0, views(candidate@));
            let mut terminated = false;
            let mut n: usize = 0;
            while n < MAX_TABLE
                invariant_except_break
                    valid,
                    !terminated,
                invariant
                    hi == cmds@.len(),
                    hi <= REACH,
                    1 <= oi <= outers@.len(),
                    outer == outers@[oi - 1],
                    base < hi,
                    table_end <= hi,
                    forall|i: int| 0 <= i < out@.len() ==> native_ref_ok(buf@, glyphs@, lo as int, cmds@, outers@, known@, #[trigger] out@[i]),
                    forall|i: int| 0 <= i < candidate@.len() ==> native_ref_ok(buf@, glyphs@, lo as int, cmds@, outers@, known@, #[trigger] candidate@[i]),
                    row_answer == inner_row(buf@, glyphs@, lo as int, cmds@, views(known@), views(out@), outer as int, base as int,
                        table_end as int, n as int, views(candidate@)),
                ensures
                    valid && terminated ==> row_answer == Some(views(candidate@)),
                    !(valid && terminated) ==> row_answer is None,
                    forall|i: int| 0 <= i < candidate@.len() ==> native_ref_ok(buf@, glyphs@, lo as int, cmds@, outers@, known@, #[trigger] candidate@[i]),
                decreases MAX_TABLE - n,
            {
                let slot = base + n * 2;
                if slot + 2 > table_end || slot >= hi || cmds[slot] {
                    break;
                }
                let off = match u16at(buf, slot) {
                    Some(0xffff) => {
                        terminated = true;
                        break;
                    },
                    Some(v) => v as usize,
                    None => break,
                };
                if off % 2 != 0 || !(lo <= off && off < hi) || cmds[off] {
                    valid = false;
                    break;
                }
                let codes = match read_codes(buf, off, MAX_STR) {
                    Some(c) => c,
                    None => {
                        valid = false;
                        break;
                    },
                };
                if codes.len() == 0 || contains_code(codes.as_slice(), END) {
                    valid = false;
                    break;
                }
                let end = off + codes.len() * 2 + 2;
                if end > hi || overlaps_any(known, off, end) || overlaps_any(out.as_slice(), off, end)
                    || overlaps_any(candidate.as_slice(), off, end) {
                    valid = false;
                    break;
                }
                let jp = render(codes.as_slice(), glyphs);
                let s = StringRef { at: slot, offset: off, end, kind: RefKind::Native(outer), slot: Some(slot), jp };
                proof {
                    lemma_string_at_ok(buf@, glyphs@, s, MAX_STR as int);
                    assert(outers@[oi - 1] == outer);
                }
                let ghost before = views(candidate@);
                candidate.push(s);
                proof {
                    assert(views(candidate@) =~= before.push(ref_view(s)));
                }
                n = n + 1;
            }
            if !terminated {
                valid = false;
            }
            if !valid {
                break;
            }
            bi = bi + 1;
        }
        if valid {
            let ghost before = views(out@);
            let mut k: usize = 0;
            while k < candidate.len()
                invariant
                    k <= candidate@.len(),
                    views(out@) == before + views(candidate@).take(k as int),
                    forall|i: int| 0 <= i < out@.len() ==> native_ref_ok(buf@, glyphs@, lo as int, cmds@, outers@, known@, #[trigger] out@[i]),
                    forall|i: int| 0 <= i < candidate@.len() ==> native_ref_ok(buf@, glyphs@, lo as int, cmds@, outers@, known@, #[trigger] candidate@[i]),
                decreases candidate@.len() - k,
            {
                let ghost mid = views(out@);
                let c = candidate[k].clone_ref();
                out.push(c);
                proof {
                    assert(views(out@) =~= mid.push(ref_view(c)));
                    assert(ref_view(c) == views(candidate@)[k as int]);
                    assert(views(candidate@).take(k + 1) =~= views(candidate@).take(k as int).push(views(candidate@)[k as int]));
                }
                k = k + 1;
            }
            proof {
                assert(views(candidate@).take(candidate@.len() as int) =~= views(candidate@));
            }
        }
    }
    out
}

/// The inner-table offsets of the outer table at `outer`: `outer_shape`.
fn outer_bases(buf: &[u8], cmds: &[bool], outer: usize) -> (r: Option<Vec<usize>>)
    requires
        cmds@.len() <= REACH,
        outer < cmds@.len(),
    ensures
        r matches Some(b) ==> outer_shape(buf@, cmds@, outer as int) == Some(b@),
        r is None <==> outer_shape(buf@, cmds@, outer as int) is None,
        r matches Some(b) ==> forall|j: int| 0 <= j < b@.len() ==> #[trigger] b@[j] < cmds@.len(),
{
    let hi = cmds.len();
    let first = match u16at(buf, outer) {
        Some(v) => v as usize,
        None => return None,
    };
    if !(first > outer && first < hi && (first - outer) % 2 == 0) {
        return None;
    }
    let count = (first - outer) / 2;
    if count < 1 || count > MAX_TABLE {
        return None;
    }
    let mut bases: Vec<usize> = Vec::new();
    let mut i: usize = 0;
    while i < count
        invariant
            i <= count <= MAX_TABLE,
            outer < hi <= REACH,
            hi == cmds@.len(),
            spec_u16_at(buf@, outer as int) == Some(first as u16),
            first > outer && first < hi && (first - outer) % 2 == 0,
            count == (first - outer) / 2,
            bases@ == outer_words(buf@, outer as int, i as int),
            forall|j: int| 0 <= j < i ==> #[trigger] spec_u16_at(buf@, outer + 2 * j) is Some,
        decreases count - i,
    {
        match u16at(buf, outer + i * 2) {
            Some(b) => {
                bases.push(b as usize);
                proof {
                    assert(bases@ =~= outer_words(buf@, outer as int, i + 1));
                }
            },
            None => {
                proof {
                    assert(!(forall|j: int| 0 <= j < count ==> #[trigger] spec_u16_at(buf@, outer + 2 * j) is Some)) by {
                        assert(spec_u16_at(buf@, outer + 2 * (i as int)) is None);
                    }
                }
                return None;
            },
        }
        i = i + 1;
    }
    if bases[0] != first {
        return None;
    }
    let mut i: usize = 0;
    while i < bases.len()
        invariant
            i <= bases@.len(),
            bases@.len() == count,
            hi == cmds@.len(),
            spec_u16_at(buf@, outer as int) == Some(first as u16),
            first > outer && first < hi && (first - outer) % 2 == 0,
            1 <= count <= MAX_TABLE,
            count == (first - outer) / 2,
            bases@ == outer_words(buf@, outer as int, count as int),
            bases@[0] == first,
            forall|j: int| 0 <= j < count ==> #[trigger] spec_u16_at(buf@, outer + 2 * j) is Some,
            forall|j: int| 0 <= j < i ==> #[trigger] inner_ok(first as int, cmds@, bases@, j),
        decreases bases@.len() - i,
    {
        let b = bases[i];
        if b % 2 != 0 || !(first <= b && b < hi) || cmds[b] || (i + 1 < bases.len() && bases[i] >= bases[i + 1]) {
            proof {
                assert(!inner_ok(first as int, cmds@, bases@, i as int));
            }
            return None;
        }
        proof {
            assert(inner_ok(first as int, cmds@, bases@, i as int));
        }
        i = i + 1;
    }
    proof {
        assert forall|j: int| 0 <= j < bases@.len() implies #[trigger] bases@[j] < cmds@.len() by {
            assert(inner_ok(first as int, cmds@, bases@, j));
        }
    }
    Some(bases)
}

impl StringRef {
    /// A copy of this reference, the rendering included.
    pub fn clone_ref(&self) -> (c: StringRef)
        ensures
            c.at == self.at && c.offset == self.offset && c.end == self.end && c.kind == self.kind && c.slot == self.slot
                && c.jp@ == self.jp@,
    {
        StringRef { at: self.at, offset: self.offset, end: self.end, kind: self.kind, slot: self.slot, jp: self.jp.clone() }
    }
}


pub struct Plan {
    pub strings: Vec<StringRef>,
    pub stats: WalkStats,
    pub dir_words: usize,
    /// one past the last byte the script region claims
    pub script_end: usize,
    /// the record cursor: where the arena goes and where the archives start
    pub record_cursor: usize,
}

/// Every reference the plan holds names a terminated string, and its slot is
/// the halfword holding the string's offset: the operand word of a command, or
/// the table slot itself.
pub open spec fn plan_ref_ok(buf: Seq<u8>, glyphs: Map<u16, String>, s: StringRef) -> bool {
    &&& string_ok(buf, glyphs, s)
    &&& s.offset < window(buf)
    &&& s.slot is Some
    &&& spec_u16_at(buf, s.slot.unwrap() as int) == Some(s.offset as u16)
    &&& s.kind is Direct ==> s.slot == Some((s.at + 2 * spec_text_operand(s.kind->Direct_0).unwrap()) as usize)
        && spec_u16_at(buf, s.at as int) == Some(s.kind->Direct_0)
    &&& !(s.kind is Direct) ==> s.slot == Some(s.at)
}

impl Plan {
    /// What `plan` guarantees of the plan it returns.
    pub open spec fn wf(&self, buf: Seq<u8>, glyphs: Map<u16, String>) -> bool {
        &&& forall|i: int| 0 <= i < self.strings@.len() ==> plan_ref_ok(buf, glyphs, #[trigger] self.strings@[i])
        &&& self.script_end <= window(buf)
        &&& self.dir_words >= 1
        &&& self.dir_words <= 0x8000
        &&& self.record_cursor <= 0xffff
        &&& self.stats.cmds.wf()
        &&& self.stats.unknown.wf()
    }
}

fn fill(v: &mut Vec<bool>, a: usize, b: usize)
    requires
        a <= b <= old(v)@.len(),
    ensures
        final(v)@.len() == old(v)@.len(),
        forall|i: int| 0 <= i < final(v)@.len() ==> #[trigger] final(v)@[i] == (old(v)@[i] || (a <= i < b)),
{
    let mut i = a;
    while i < b
        invariant
            a <= i <= b <= v@.len(),
            v@.len() == old(v)@.len(),
            forall|j: int| 0 <= j < v@.len() ==> #[trigger] v@[j] == (old(v)@[j] || (a <= j < i)),
        decreases b - i,
    {
        v.set(i, true);
        i = i + 1;
    }
}

/// The bytes of the window a command of `n` words at `at` claims,
/// `[start, end)`; a command of unknown length claims its opcode.
pub open spec fn cmd_span(at: u32, n: usize, limit: int) -> (int, int) {
    let n = if n > 1 { n as int } else { 1 };
    (if at < limit { at as int } else { limit }, if n > limit || at + 2 * n > limit { limit } else { at + 2 * n })
}

/// Whether the command `e` claims byte `i`.
pub open spec fn claims(e: (u32, usize), limit: int, i: int) -> bool {
    cmd_span(e.0, e.1, limit).0 <= i < cmd_span(e.0, e.1, limit).1
}

/// Which bytes of the window the commands `es` claim.
pub open spec fn cmd_mask(es: Seq<(u32, usize)>, limit: int) -> Seq<bool> {
    Seq::new(limit as nat, |i: int| exists|k: int| 0 <= k < es.len() && #[trigger] claims(es[k], limit, i))
}

/// `end` clipped to the window.
pub open spec fn clip(end: usize, limit: int) -> int {
    if end < limit { end as int } else { limit }
}

/// Where the script region ends, given the commands `es` and the strings
/// `strs`: the furthest byte of the window any of them claims, 0 if none
/// claims one.
pub open spec fn is_script_end(se: int, es: Seq<(u32, usize)>, strs: Seq<RefView>, limit: int) -> bool {
    &&& forall|k: int| 0 <= k < es.len() && cmd_span((#[trigger] es[k]).0, es[k].1, limit).0 < cmd_span(es[k].0, es[k].1, limit).1
        ==> cmd_span(es[k].0, es[k].1, limit).1 <= se
    &&& forall|j: int| 0 <= j < strs.len() && (#[trigger] strs[j]).1 < clip(strs[j].2, limit) ==> clip(strs[j].2, limit) <= se
    &&& se == 0
        || (exists|k: int| 0 <= k < es.len() && cmd_span((#[trigger] es[k]).0, es[k].1, limit).0 < cmd_span(es[k].0, es[k].1, limit).1
            && cmd_span(es[k].0, es[k].1, limit).1 == se)
        || (exists|j: int| 0 <= j < strs.len() && (#[trigger] strs[j]).1 < clip(strs[j].2, limit) && clip(strs[j].2, limit) == se)
}

/// The halfword of a direct reference's command that holds its offset.
pub open spec fn operand_slot(r: RefView) -> usize {
    let op = match r.3 {
        RefKind::Direct(op) => op,
        _ => 0u16,
    };
    let wi = match spec_text_operand(op) {
        Some(w) => w as int,
        None => 0,
    };
    (r.0 + 2 * wi) as usize
}

/// A direct reference with its slot resolved.
pub open spec fn with_slot(r: RefView) -> RefView {
    (r.0, r.1, r.2, r.3, Some(operand_slot(r)), r.5)
}

/// The array offsets the `OBJ_TEXT` commands among `es` name, in order.
pub open spec fn obj_bases_of(buf: Seq<u8>, es: Seq<(u32, usize)>) -> Seq<usize>
    decreases es.len(),
{
    if es.len() == 0 {
        Seq::empty()
    } else {
        let at = es.last().0 as int;
        obj_bases_of(buf, es.drop_last()) + (if spec_u16_at(buf, at) == Some(OBJ_TEXT) {
            match spec_u16_at(buf, at + OBJ_TEXT_WORD * 2) {
                Some(b) => seq![b as usize],
                None => Seq::empty(),
            }
        } else {
            Seq::empty()
        })
    }
}

/// The outer tables the 0x0808 commands among `es` pass, in order.
pub open spec fn native_outers_of(buf: Seq<u8>, es: Seq<(u32, usize)>) -> Seq<usize>
    decreases es.len(),
{
    if es.len() == 0 {
        Seq::empty()
    } else {
        let at = es.last().0 as int;
        native_outers_of(buf, es.drop_last()) + (if spec_u16_at(buf, at) == Some(0x0808u16) {
            match spec_u16_at(buf, at + 4) {
                Some(b) => seq![b as usize],
                None => Seq::empty(),
            }
        } else {
            Seq::empty()
        })
    }
}

/// The script's directory length in words: its header's second word halved,
/// at least 1.
pub open spec fn plan_dir_words(buf: Seq<u8>) -> int {
    if spec_w(buf, 0, 1) / 2 >= 1 { spec_w(buf, 0, 1) / 2 } else { 1 }
}

/// The commands the walk finds, in increasing position.
pub open spec fn plan_entries(buf: Seq<u8>, glyphs: Map<u16, String>) -> Seq<(u32, usize)> {
    sorted_entries(walk_spec(buf, glyphs).cmds)
}

/// Every string reference of a script, in the order the plan holds them:
/// the walk's direct references with their operand slots, then the
/// directory's string tables, then the `OBJ_TEXT` arrays, then the 0x0808
/// native tables, each pass kept off the bytes the commands claim and off
/// the strings found before it.
#[verifier::opaque]
pub open spec fn plan_strings(buf: Seq<u8>, glyphs: Map<u16, String>) -> Seq<RefView> {
    let es = plan_entries(buf, glyphs);
    let dw = plan_dir_words(buf);
    let mask = cmd_mask(es, window(buf));
    let d = walk_spec(buf, glyphs).strings.map_values(|r: RefView| with_slot(r));
    let t = tables_from(buf, glyphs, dw, mask, d, 2, Seq::empty());
    let o = obj_arrays_from(buf, glyphs, obj_bases_of(buf, es), 2 * dw, mask, d + t, 0, Seq::empty());
    let n = natives_from(buf, glyphs, native_outers_of(buf, es), 2 * dw, mask, d + t + o, 0, Seq::empty());
    d + t + o + n
}

/// Claiming one more command keeps `se` the script's end.
proof fn lemma_end_cmd(se: int, es: Seq<(u32, usize)>, k: int, limit: int)
    requires
        0 <= k < es.len(),
        is_script_end(se, es.take(k), Seq::empty(), limit),
    ensures
        is_script_end(
            if cmd_span(es[k].0, es[k].1, limit).0 < cmd_span(es[k].0, es[k].1, limit).1 && cmd_span(es[k].0, es[k].1, limit).1 > se {
                cmd_span(es[k].0, es[k].1, limit).1
            } else {
                se
            },
            es.take(k + 1),
            Seq::empty(),
            limit,
        ),
{
    let pre = es.take(k);
    let nx = es.take(k + 1);
    assert forall|j: int| 0 <= j < k implies nx[j] == #[trigger] pre[j] by {}
    assert(nx[k] == es[k]);
    let (a, b) = cmd_span(es[k].0, es[k].1, limit);
    let se2 = if a < b && b > se { b } else { se };
    assert forall|j: int| 0 <= j < nx.len() && cmd_span((#[trigger] nx[j]).0, nx[j].1, limit).0 < cmd_span(nx[j].0, nx[j].1, limit).1
        implies cmd_span(nx[j].0, nx[j].1, limit).1 <= se2 by {
        if j < k {
            assert(pre[j] == nx[j]);
        }
    }
    if se2 != 0 {
        if se2 == b && a < b && b > se {
            assert(nx[k] == es[k]);
        } else {
            if exists|j: int| 0 <= j < pre.len() && cmd_span((#[trigger] pre[j]).0, pre[j].1, limit).0 < cmd_span(pre[j].0, pre[j].1, limit).1
                && cmd_span(pre[j].0, pre[j].1, limit).1 == se {
                let j = choose|j: int| 0 <= j < pre.len() && cmd_span((#[trigger] pre[j]).0, pre[j].1, limit).0 < cmd_span(pre[j].0, pre[j].1, limit).1
                    && cmd_span(pre[j].0, pre[j].1, limit).1 == se;
                assert(nx[j] == pre[j]);
            }
        }
    }
}

/// Taking one more string keeps `se` the script's end.
proof fn lemma_end_str(se: int, es: Seq<(u32, usize)>, strs: Seq<RefView>, r: RefView, limit: int)
    requires
        is_script_end(se, es, strs, limit),
    ensures
        is_script_end(
            if r.1 < clip(r.2, limit) && clip(r.2, limit) > se { clip(r.2, limit) } else { se },
            es,
            strs.push(r),
            limit,
        ),
{
    let nx = strs.push(r);
    let b = clip(r.2, limit);
    let se2 = if r.1 < b && b > se { b } else { se };
    assert forall|j: int| 0 <= j < strs.len() implies nx[j] == #[trigger] strs[j] by {}
    assert(nx[strs.len() as int] == r);
    assert forall|j: int| 0 <= j < nx.len() && (#[trigger] nx[j]).1 < clip(nx[j].2, limit) implies clip(nx[j].2, limit) <= se2 by {
        if j < strs.len() {
            assert(strs[j] == nx[j]);
        }
    }
    if se2 != 0 && !(r.1 < b && b > se) {
        if exists|j: int| 0 <= j < strs.len() && (#[trigger] strs[j]).1 < clip(strs[j].2, limit) && clip(strs[j].2, limit) == se {
            let j = choose|j: int| 0 <= j < strs.len() && (#[trigger] strs[j]).1 < clip(strs[j].2, limit) && clip(strs[j].2, limit) == se;
            assert(nx[j] == strs[j]);
        }
    }
    if r.1 < b && b > se {
        assert(nx[strs.len() as int] == r);
    }
}

/// Every reference in `strings` meets `plan_ref_ok`, and `se` covers the end
/// of each within the window.
pub open spec fn refs_within(buf: Seq<u8>, glyphs: Map<u16, String>, strings: Seq<StringRef>, se: int, limit: int) -> bool {
    &&& forall|j: int| 0 <= j < strings.len() ==> plan_ref_ok(buf, glyphs, #[trigger] strings[j])
    &&& forall|j: int| 0 <= j < strings.len() ==> {
        let s = #[trigger] strings[j];
        s.offset < s.end ==> (if s.end < limit { s.end as int } else { limit }) <= se
    }
}

/// Mark the bytes of the window the commands claim, and the furthest of them.
fn claim_cmds(cmd_lens: &SortedMap<usize>, limit: usize) -> (r: (Vec<bool>, usize))
    requires
        cmd_lens.wf(),
        limit <= REACH,
        forall|k: u32| #[trigger] cmd_lens@.contains_key(k) ==> k < limit,
    ensures
        r.0@ == cmd_mask(cmd_lens.entries(), limit as int),
        r.1 <= limit,
        is_script_end(r.1 as int, cmd_lens.entries(), Seq::empty(), limit as int),
{
    let ghost es = cmd_lens.entries();
    let mut cmds = all_false(limit);
    let mut script_end: usize = 0;
    let mut k: usize = 0;
    proof {
        assert(es.take(0) =~= Seq::<(u32, usize)>::empty());
    }
    while k < cmd_lens.len()
        invariant
            limit <= REACH,
            cmds@.len() == limit,
            script_end <= limit,
            cmd_lens.wf(),
            es == cmd_lens.entries(),
            forall|q: u32| #[trigger] cmd_lens@.contains_key(q) ==> q < limit,
            k <= es.len(),
            forall|i: int| 0 <= i < limit ==> #[trigger] cmds@[i] == exists|j: int| 0 <= j < k && #[trigger] claims(es[j], limit as int, i),
            is_script_end(script_end as int, es.take(k as int), Seq::empty(), limit as int),
        decreases es.len() - k,
    {
        let e = cmd_lens.at(k);
        proof {
            crate::sorted_map::lemma_sorted_lookup(es, k as int);
            assert(cmd_lens@.contains_key(es[k as int].0));
            lemma_end_cmd(script_end as int, es, k as int, limit as int);
        }
        let at = e.0 as usize;
        let n = if e.1 > 1 { e.1 } else { 1 };
        let a = if at < limit { at } else { limit };
        let b = if n > limit || at + 2 * n > limit { limit } else { at + 2 * n };
        let ghost old_cmds = cmds@;
        if a < b {
            fill(&mut cmds, a, b);
            if b > script_end {
                script_end = b;
            }
        }
        proof {
            assert forall|i: int| 0 <= i < limit implies #[trigger] cmds@[i] == exists|j: int| 0 <= j < k + 1 && #[trigger] claims(es[j], limit as int, i) by {
                if claims(es[k as int], limit as int, i) {
                    assert(0 <= k < k + 1);
                }
                if exists|j: int| 0 <= j < k + 1 && #[trigger] claims(es[j], limit as int, i) {
                    let j = choose|j: int| 0 <= j < k + 1 && #[trigger] claims(es[j], limit as int, i);
                    if j < k {
                        assert(old_cmds[i]);
                    }
                }
                if old_cmds[i] {
                    let j = choose|j: int| 0 <= j < k && #[trigger] claims(es[j], limit as int, i);
                    assert(0 <= j < k + 1);
                }
            }
        }
        k = k + 1;
    }
    proof {
        assert(es.take(es.len() as int) =~= es);
        assert(cmds@ =~= cmd_mask(es, limit as int));
    }
    (cmds, script_end)
}

/// The walk's direct references with the halfword that holds each offset.
fn resolve_slots(
    buf: &[u8],
    glyphs: &HashMap<u16, String>,
    walked: &[StringRef],
    script_end: usize,
    Ghost(es): Ghost<Seq<(u32, usize)>>,
) -> (r: (Vec<StringRef>, usize))
    requires
        script_end <= window(buf@),
        forall|j: int| 0 <= j < walked@.len() ==> direct_ref_ok(buf@, glyphs@, window(buf@), #[trigger] walked@[j]),
        is_script_end(script_end as int, es, Seq::empty(), window(buf@)),
    ensures
        views(r.0@) == views(walked@).map_values(|v: RefView| with_slot(v)),
        r.1 <= window(buf@),
        refs_within(buf@, glyphs@, r.0@, r.1 as int, window(buf@)),
        is_script_end(r.1 as int, es, views(r.0@), window(buf@)),
{
    let limit = if buf.len() < REACH { buf.len() } else { REACH };
    let ghost d = views(walked@).map_values(|v: RefView| with_slot(v));
    let mut script_end = script_end;
    let mut strings: Vec<StringRef> = Vec::new();
    let mut i: usize = 0;
    proof {
        assert(views(strings@) =~= d.take(0));
        assert(views(strings@) =~= Seq::<RefView>::empty());
    }
    while i < walked.len()
        invariant
            limit == window(buf@),
            limit <= REACH,
            script_end <= limit,
            i <= walked@.len(),
            d == views(walked@).map_values(|v: RefView| with_slot(v)),
            forall|j: int| 0 <= j < walked@.len() ==> direct_ref_ok(buf@, glyphs@, limit as int, #[trigger] walked@[j]),
            refs_within(buf@, glyphs@, strings@, script_end as int, limit as int),
            views(strings@) == d.take(i as int),
            is_script_end(script_end as int, es, views(strings@), limit as int),
        decreases walked@.len() - i,
    {
        let s = &walked[i];
        proof {
            assert(direct_ref_ok(buf@, glyphs@, limit as int, walked@[i as int]));
            lemma_string_at_ok(buf@, glyphs@, walked@[i as int], DECODE_LIMIT as int);
        }
        let op = match s.kind {
            RefKind::Direct(op) => op,
            _ => 0,
        };
        let wi = match text_operand(op) {
            Some(wi) => wi,
            None => 0,
        };
        let r = StringRef { at: s.at, offset: s.offset, end: s.end, kind: s.kind, slot: Some(s.at + wi * 2), jp: s.jp.clone() };
        let b = if r.end < limit { r.end } else { limit };
        proof {
            assert(ref_view(r) == with_slot(ref_view(walked@[i as int])));
            assert(ref_view(r) == d[i as int]);
            lemma_end_str(script_end as int, es, views(strings@), ref_view(r), limit as int);
        }
        if r.offset < b && b > script_end {
            script_end = b;
        }
        let ghost before = views(strings@);
        strings.push(r);
        proof {
            assert(views(strings@) =~= before.push(ref_view(r)));
            assert(d.take(i + 1) =~= d.take(i as int).push(d[i as int]));
        }
        i = i + 1;
    }
    proof {
        assert(d.take(walked@.len() as int) =~= d);
    }
    (strings, script_end)
}

/// Append the references a table pass found, moving the script's end past
/// each of them.
fn append_found(
    buf: &[u8],
    glyphs: &HashMap<u16, String>,
    lo: usize,
    cmds: &[bool],
    found: &[StringRef],
    strings: &mut Vec<StringRef>,
    script_end: &mut usize,
    Ghost(es): Ghost<Seq<(u32, usize)>>,
)
    requires
        cmds@.len() == window(buf@),
        *old(script_end) <= window(buf@),
        forall|j: int| 0 <= j < found@.len() ==> slot_ref_ok(buf@, glyphs@, lo as int, cmds@, #[trigger] found@[j])
            && !(found@[j].kind is Direct),
        refs_within(buf@, glyphs@, old(strings)@, *old(script_end) as int, window(buf@)),
        is_script_end(*old(script_end) as int, es, views(old(strings)@), window(buf@)),
    ensures
        views(final(strings)@) == views(old(strings)@) + views(found@),
        *final(script_end) <= window(buf@),
        refs_within(buf@, glyphs@, final(strings)@, *final(script_end) as int, window(buf@)),
        is_script_end(*final(script_end) as int, es, views(final(strings)@), window(buf@)),
{
    let limit = cmds.len();
    let ghost known = views(strings@);
    let mut i: usize = 0;
    proof {
        assert(known + views(found@).take(0) =~= known);
    }
    while i < found.len()
        invariant
            limit == window(buf@),
            cmds@.len() == limit,
            *script_end <= limit,
            i <= found@.len(),
            forall|j: int| 0 <= j < found@.len() ==> slot_ref_ok(buf@, glyphs@, lo as int, cmds@, #[trigger] found@[j])
                && !(found@[j].kind is Direct),
            refs_within(buf@, glyphs@, strings@, *script_end as int, limit as int),
            views(strings@) == known + views(found@).take(i as int),
            is_script_end(*script_end as int, es, views(strings@), limit as int),
        decreases found@.len() - i,
    {
        let r = found[i].clone_ref();
        let b = if r.end < limit { r.end } else { limit };
        proof {
            assert(slot_ref_ok(buf@, glyphs@, lo as int, cmds@, found@[i as int]));
            assert(ref_view(r) == views(found@)[i as int]);
            lemma_end_str(*script_end as int, es, views(strings@), ref_view(r), limit as int);
        }
        if r.offset < b && b > *script_end {
            *script_end = b;
        }
        let ghost before = views(strings@);
        strings.push(r);
        proof {
            assert(views(strings@) =~= before.push(ref_view(r)));
            assert(views(found@).take(i + 1) =~= views(found@).take(i as int).push(views(found@)[i as int]));
        }
        i = i + 1;
    }
    proof {
        assert(views(found@).take(found@.len() as int) =~= views(found@));
    }
}

/// The array offsets the `OBJ_TEXT` commands name and the outer tables the
/// 0x0808 commands pass, in command order.
fn callee_tables(buf: &[u8], cmd_lens: &SortedMap<usize>) -> (r: (Vec<usize>, Vec<usize>))
    requires
        cmd_lens.wf(),
        forall|k: u32| #[trigger] cmd_lens@.contains_key(k) ==> k < REACH,
    ensures
        r.0@ == obj_bases_of(buf@, cmd_lens.entries()),
        r.1@ == native_outers_of(buf@, cmd_lens.entries()),
{
    let ghost es = cmd_lens.entries();
    let mut obj_bases: Vec<usize> = Vec::new();
    let mut native_outers: Vec<usize> = Vec::new();
    let mut k: usize = 0;
    proof {
        assert(es.take(0) =~= Seq::<(u32, usize)>::empty());
        assert(obj_bases@ =~= obj_bases_of(buf@, es.take(0)));
        assert(native_outers@ =~= native_outers_of(buf@, es.take(0)));
    }
    while k < cmd_lens.len()
        invariant
            cmd_lens.wf(),
            es == cmd_lens.entries(),
            forall|q: u32| #[trigger] cmd_lens@.contains_key(q) ==> q < REACH,
            k <= es.len(),
            obj_bases@ == obj_bases_of(buf@, es.take(k as int)),
            native_outers@ == native_outers_of(buf@, es.take(k as int)),
        decreases es.len() - k,
    {
        proof {
            crate::sorted_map::lemma_sorted_lookup(es, k as int);
            assert(cmd_lens@.contains_key(es[k as int].0));
            assert(es.take(k + 1).drop_last() =~= es.take(k as int));
            assert(es.take(k + 1).last() == es[k as int]);
        }
        let at = cmd_lens.at(k).0 as usize;
        let op = u16at(buf, at);
        if op == Some(OBJ_TEXT) {
            match u16at(buf, at + OBJ_TEXT_WORD * 2) {
                Some(b) => obj_bases.push(b as usize),
                None => {},
            }
        }
        if op == Some(0x0808) {
            match u16at(buf, at + 4) {
                Some(b) => native_outers.push(b as usize),
                None => {},
            }
        }
        proof {
            assert(obj_bases@ =~= obj_bases_of(buf@, es.take(k + 1)));
            assert(native_outers@ =~= native_outers_of(buf@, es.take(k + 1)));
        }
        k = k + 1;
    }
    proof {
        assert(es.take(es.len() as int) =~= es);
    }
    (obj_bases, native_outers)
}

/// The directory's string tables, appended to `strings`.
fn table_pass(
    buf: &[u8],
    glyphs: &HashMap<u16, String>,
    dir_words: usize,
    cmds: &[bool],
    strings: &mut Vec<StringRef>,
    script_end: &mut usize,
    Ghost(es): Ghost<Seq<(u32, usize)>>,
)
    requires
        cmds@.len() == window(buf@),
        dir_words <= 0x8000,
        *old(script_end) <= window(buf@),
        refs_within(buf@, glyphs@, old(strings)@, *old(script_end) as int, window(buf@)),
        is_script_end(*old(script_end) as int, es, views(old(strings)@), window(buf@)),
    ensures
        views(final(strings)@) == views(old(strings)@) + tables_from(buf@, glyphs@, dir_words as int, cmds@, views(old(strings)@), 2,
            Seq::empty()),
        *final(script_end) <= window(buf@),
        refs_within(buf@, glyphs@, final(strings)@, *final(script_end) as int, window(buf@)),
        is_script_end(*final(script_end) as int, es, views(final(strings)@), window(buf@)),
{
    let found = tables(buf, dir_words, cmds, strings.as_slice(), glyphs);
    append_found(buf, glyphs, dir_words * 2, cmds, found.as_slice(), strings, script_end, Ghost(es));
}

/// The `OBJ_TEXT` arrays at `bases`, appended to `strings`.
fn obj_pass(
    buf: &[u8],
    glyphs: &HashMap<u16, String>,
    bases: &[usize],
    lo: usize,
    cmds: &[bool],
    strings: &mut Vec<StringRef>,
    script_end: &mut usize,
    Ghost(es): Ghost<Seq<(u32, usize)>>,
)
    requires
        cmds@.len() == window(buf@),
        *old(script_end) <= window(buf@),
        refs_within(buf@, glyphs@, old(strings)@, *old(script_end) as int, window(buf@)),
        is_script_end(*old(script_end) as int, es, views(old(strings)@), window(buf@)),
    ensures
        views(final(strings)@) == views(old(strings)@) + obj_arrays_from(buf@, glyphs@, bases@, lo as int, cmds@, views(old(strings)@), 0,
            Seq::empty()),
        *final(script_end) <= window(buf@),
        refs_within(buf@, glyphs@, final(strings)@, *final(script_end) as int, window(buf@)),
        is_script_end(*final(script_end) as int, es, views(final(strings)@), window(buf@)),
{
    let found = obj_text_arrays(buf, bases, lo, cmds, strings.as_slice(), glyphs);
    append_found(buf, glyphs, lo, cmds, found.as_slice(), strings, script_end, Ghost(es));
}

/// The 0x0808 native tables of `outers`, appended to `strings`.
fn native_pass(
    buf: &[u8],
    glyphs: &HashMap<u16, String>,
    outers: &[usize],
    lo: usize,
    cmds: &[bool],
    strings: &mut Vec<StringRef>,
    script_end: &mut usize,
    Ghost(es): Ghost<Seq<(u32, usize)>>,
)
    requires
        cmds@.len() == window(buf@),
        *old(script_end) <= window(buf@),
        refs_within(buf@, glyphs@, old(strings)@, *old(script_end) as int, window(buf@)),
        is_script_end(*old(script_end) as int, es, views(old(strings)@), window(buf@)),
    ensures
        views(final(strings)@) == views(old(strings)@) + natives_from(buf@, glyphs@, outers@, lo as int, cmds@, views(old(strings)@), 0,
            Seq::empty()),
        *final(script_end) <= window(buf@),
        refs_within(buf@, glyphs@, final(strings)@, *final(script_end) as int, window(buf@)),
        is_script_end(*final(script_end) as int, es, views(final(strings)@), window(buf@)),
{
    let found = native_tables(buf, outers, lo, cmds.len(), cmds, strings.as_slice(), glyphs);
    append_found(buf, glyphs, lo, cmds, found.as_slice(), strings, script_end, Ghost(es));
}

/// `p` is what `plan` makes of `buf`: its references, directory length,
/// script end, record cursor and walk statistics.
pub open spec fn planned(buf: Seq<u8>, glyphs: Map<u16, String>, p: Plan) -> bool {
    &&& views(p.strings@) == plan_strings(buf, glyphs)
    &&& p.dir_words == plan_dir_words(buf)
    &&& p.record_cursor == spec_w(buf, 0, 0)
    &&& is_script_end(p.script_end as int, plan_entries(buf, glyphs), plan_strings(buf, glyphs), window(buf))
    &&& p.stats.cmds@ == walk_spec(buf, glyphs).cmds
    &&& p.stats.unknown@ == walk_spec(buf, glyphs).unknown
    &&& p.stats.steps == walk_spec(buf, glyphs).steps
    &&& p.stats.sentinel == walk_spec(buf, glyphs).sentinel
    &&& p.stats.arrays == walk_spec(buf, glyphs).arrays
    &&& p.stats.targets == walk_spec(buf, glyphs).targets
}

/// The passes of `plan`, value by value, give `plan_strings`.
proof fn lemma_plan_strings(
    buf: Seq<u8>,
    glyphs: Map<u16, String>,
    mask: Seq<bool>,
    d: Seq<RefView>,
    v2: Seq<RefView>,
    v3: Seq<RefView>,
    v4: Seq<RefView>,
)
    requires
        mask == cmd_mask(plan_entries(buf, glyphs), window(buf)),
        d == walk_spec(buf, glyphs).strings.map_values(|r: RefView| with_slot(r)),
        v2 == d + tables_from(buf, glyphs, plan_dir_words(buf), mask, d, 2, Seq::empty()),
        v3 == v2 + obj_arrays_from(buf, glyphs, obj_bases_of(buf, plan_entries(buf, glyphs)), 2 * plan_dir_words(buf), mask, v2, 0,
            Seq::empty()),
        v4 == v3 + natives_from(buf, glyphs, native_outers_of(buf, plan_entries(buf, glyphs)), 2 * plan_dir_words(buf), mask, v3, 0,
            Seq::empty()),
    ensures
        v4 == plan_strings(buf, glyphs),
{
    reveal(plan_strings);
}

/// Walk once, then mark every byte of the addressable window that is a command
/// or a string, and resolve the word that names each string.
#[verifier::spinoff_prover]
pub fn plan(buf: &[u8], glyphs: &HashMap<u16, String>) -> (p: Plan)
    ensures
        p.wf(buf@, glyphs@),
        p.record_cursor == spec_w(buf@, 0, 0),
        p.dir_words == plan_dir_words(buf@),
        cmds_ok(buf@, window(buf@), p.stats.cmds@),
        forall|i: int| 0 <= i < p.strings@.len() ==> {
            let s = #[trigger] p.strings@[i];
            s.offset < s.end ==> (if s.end < window(buf@) { s.end as int } else { window(buf@) }) <= p.script_end
        },
        views(p.strings@) == plan_strings(buf@, glyphs@),
        is_script_end(p.script_end as int, plan_entries(buf@, glyphs@), plan_strings(buf@, glyphs@), window(buf@)),
        p.stats.cmds@ == walk_spec(buf@, glyphs@).cmds,
        p.stats.unknown@ == walk_spec(buf@, glyphs@).unknown,
        p.stats.steps == walk_spec(buf@, glyphs@).steps,
        p.stats.sentinel == walk_spec(buf@, glyphs@).sentinel,
        p.stats.arrays == walk_spec(buf@, glyphs@).arrays,
        p.stats.targets == walk_spec(buf@, glyphs@).targets,
{
    let (walked, stats) = walk(buf, glyphs);
    let ghost es = stats.cmds.entries();
    proof {
        crate::ppc::lemma_sorted_entries_of(es);
        assert(walk_spec(buf@, glyphs@).strings == views(walked@));
        assert(es == plan_entries(buf@, glyphs@));
        assert forall|k: u32| #[trigger] stats.cmds@.contains_key(k) implies k < window(buf@) by {}
    }
    let limit = if buf.len() < REACH { buf.len() } else { REACH };
    let w1 = w_at(buf, 0, 1);
    let dir_words = if w1 / 2 >= 1 { w1 / 2 } else { 1 };
    let (cmds, script_end) = claim_cmds(&stats.cmds, limit);
    let (mut strings, mut script_end) = resolve_slots(buf, glyphs, walked.as_slice(), script_end, Ghost(es));

    let ghost d = views(strings@);
    table_pass(buf, glyphs, dir_words, cmds.as_slice(), &mut strings, &mut script_end, Ghost(es));
    let ghost v2 = views(strings@);
    let (obj_bases, native_outers) = callee_tables(buf, &stats.cmds);
    obj_pass(buf, glyphs, obj_bases.as_slice(), dir_words * 2, cmds.as_slice(), &mut strings, &mut script_end, Ghost(es));
    let ghost v3 = views(strings@);
    native_pass(buf, glyphs, native_outers.as_slice(), dir_words * 2, cmds.as_slice(), &mut strings, &mut script_end, Ghost(es));
    proof {
        lemma_plan_strings(buf@, glyphs@, cmds@, d, v2, v3, views(strings@));
    }

    let record_cursor = w_at(buf, 0, 0);
    Plan { strings, stats, dir_words, script_end, record_cursor }
}

/// The positions of `strings`, in order, whose offset is `o`.
pub open spec fn users_of(strings: Seq<StringRef>, o: int) -> Seq<int> {
    with_offset(Seq::new(strings.len(), |i: int| i), strings, o)
}

/// The positions of `idx` whose string has offset `o`.
pub open spec fn with_offset(idx: Seq<int>, strings: Seq<StringRef>, o: int) -> Seq<int> {
    idx.filter(|i: int| strings[i].offset == o)
}

impl Plan {
    /// Group every reference by the string it names: offset -> the positions
    /// in `strings` of its references, in order. One "en" per string satisfies
    /// all of its readers at once.
    pub fn by_offset(&self) -> (m: SortedMap<Vec<usize>>)
        requires
            forall|i: int| 0 <= i < self.strings@.len() ==> (#[trigger] self.strings@[i]).offset <= u32::MAX,
        ensures
            m.wf(),
            forall|o: u32| #[trigger] m@.contains_key(o) <==> users_of(self.strings@, o as int).len() > 0,
            forall|o: u32| #[trigger] m@.contains_key(o) ==> m@[o]@.map_values(|i: usize| i as int) == users_of(self.strings@, o as int),
    {
        let mut m: SortedMap<Vec<usize>> = SortedMap::new();
        let mut i: usize = 0;
        let ghost all = Seq::new(self.strings@.len(), |i: int| i);
        while i < self.strings.len()
            invariant
                i <= self.strings@.len(),
                all == Seq::new(self.strings@.len(), |i: int| i),
                forall|j: int| 0 <= j < self.strings@.len() ==> (#[trigger] self.strings@[j]).offset <= u32::MAX,
                m.wf(),
                forall|o: u32| #[trigger] m@.contains_key(o) <==> with_offset(all.take(i as int), self.strings@, o as int).len() > 0,
                forall|o: u32| #[trigger] m@.contains_key(o) ==> m@[o]@.map_values(|k: usize| k as int) == with_offset(all.take(i as int), self.strings@, o as int),
            decreases self.strings@.len() - i,
        {
            let o = self.strings[i].offset as u32;
            let mut group = match m.remove(o) {
                Some(g) => g,
                None => Vec::new(),
            };
            let ghost old_group = group@;
            group.push(i);
            m.insert(o, group);
            proof {
                let pre = all.take(i as int);
                assert(all.take(i + 1) =~= pre.push(i as int));
                assert forall|q: u32| #[trigger] with_offset(all.take(i + 1), self.strings@, q as int)
                    == with_offset(pre, self.strings@, q as int) + (if q == o { seq![i as int] } else { Seq::<int>::empty() }) by {
                    pre.lemma_filter_push(i as int, |k: int| self.strings@[k].offset == q as int);
                    if q == o {
                        assert(with_offset(pre, self.strings@, q as int).push(i as int) =~= with_offset(pre, self.strings@, q as int) + seq![i as int]);
                    } else {
                        assert(with_offset(pre, self.strings@, q as int) =~= with_offset(pre, self.strings@, q as int) + Seq::<int>::empty());
                    }
                }
                assert forall|q: u32| #[trigger] m@.contains_key(q) implies m@[q]@.map_values(|k: usize| k as int) == with_offset(all.take(i + 1), self.strings@, q as int) by {
                    assert(with_offset(all.take(i + 1), self.strings@, q as int)
                        == with_offset(pre, self.strings@, q as int) + (if q == o { seq![i as int] } else { Seq::<int>::empty() }));
                    if q == o {
                        assert(m@[q]@ == old_group.push(i));
                        if with_offset(pre, self.strings@, q as int).len() == 0 {
                            assert(old_group =~= Seq::<usize>::empty());
                            assert(with_offset(pre, self.strings@, q as int) =~= Seq::<int>::empty());
                        }
                        assert(old_group.push(i).map_values(|k: usize| k as int) =~= old_group.map_values(|k: usize| k as int) + seq![i as int]);
                    }
                }
                assert forall|q: u32| #[trigger] m@.contains_key(q) <==> with_offset(all.take(i + 1), self.strings@, q as int).len() > 0 by {
                    assert(with_offset(all.take(i + 1), self.strings@, q as int)
                        == with_offset(pre, self.strings@, q as int) + (if q == o { seq![i as int] } else { Seq::<int>::empty() }));
                }
            }
            i = i + 1;
        }
        proof {
            assert(all.take(self.strings@.len() as int) =~= all);
        }
        m
    }

    /// 0x0B1B copies 0x12 bytes from whatever table id 0x0B resolves to, so an
    /// entry of that table which the index can select is a name; an entry
    /// longer than the field is not a name.
    pub fn cap(users: &[RefKind], jp_words: usize) -> (r: Option<usize>)
        ensures
            r == (if (exists|i: int| 0 <= i < users@.len() && users@[i] == RefKind::Table(11)) && jp_words <= NAME_CAP {
                Some(NAME_CAP)
            } else {
                None
            }),
    {
        let mut named = false;
        let mut i: usize = 0;
        while i < users.len()
            invariant
                i <= users@.len(),
                named == exists|j: int| 0 <= j < i && users@[j] == RefKind::Table(11),
            decreases users@.len() - i,
        {
            if users[i].is_name_table() {
                named = true;
            }
            i = i + 1;
        }
        if named && jp_words <= NAME_CAP {
            Some(NAME_CAP)
        } else {
            None
        }
    }

    /// Headroom in bytes before the patched unsigned 16-bit address space ends.
    pub fn arena_bytes(&self) -> (n: usize)
        ensures
            n == (if self.record_cursor < REACH { REACH - self.record_cursor } else { 0 }),
    {
        REACH.saturating_sub(self.record_cursor)
    }
}

} // verus!
