//! File modes: permission bits and the file type.

use crate::packed::PackedStruct;
use vstd::prelude::*;

verus! {

pub const OTHER_EXEC: u16 = 0o000_001;

pub const OTHER_WRITE: u16 = 0o000_002;

pub const OTHER_READ: u16 = 0o000_004;

pub const GROUP_EXEC: u16 = 0o000_010;

pub const GROUP_WRITE: u16 = 0o000_020;

pub const GROUP_READ: u16 = 0o000_040;

pub const USER_EXEC: u16 = 0o000_100;

pub const USER_WRITE: u16 = 0o000_200;

pub const USER_READ: u16 = 0o000_400;

pub const BIT_STICKY: u16 = 0o001_000;

pub const BIT_SGID: u16 = 0o002_000;

pub const BIT_SUID: u16 = 0o004_000;

pub const TYPE_FIFO: u16 = 0o010_000;

pub const TYPE_CHAR: u16 = 0o020_000;

pub const TYPE_DIR: u16 = 0o040_000;

pub const TYPE_BLOCK: u16 = 0o060_000;

pub const TYPE_FILE: u16 = 0o100_000;

pub const TYPE_LINK: u16 = 0o120_000;

pub const TYPE_SOCKET: u16 = 0o140_000;

pub const O777: u16 = 0o000_777;

pub const O755: u16 = 0o000_755;

pub const O644: u16 = 0o000_644;

pub const PERM_MASK: u16 = 0o007_777;

pub const TYPE_MASK: u16 = 0o170_000;

pub const NONE: u16 = 0;

/// `String::push` appends the given character to the end of the string.
pub assume_specification[ std::string::String::push ](s: &mut std::string::String, ch: char)
    ensures
        final(s)@ == old(s)@.push(ch),
;

/// The letter that `ls -l` shows for the file type in `bits`.
pub open spec fn spec_type_char(bits: u16) -> char {
    let file_type = bits & TYPE_MASK;
    if file_type == TYPE_DIR {
        'd'
    } else if file_type == TYPE_CHAR {
        'c'
    } else if file_type == TYPE_BLOCK {
        'b'
    } else if file_type == TYPE_FILE {
        '-'
    } else if file_type == TYPE_LINK {
        'l'
    } else if file_type == TYPE_SOCKET {
        's'
    } else if file_type == TYPE_FIFO {
        'p'
    } else {
        '?'
    }
}

/// `letter` where every bit of `flag` is set in `bits`, a dash elsewhere.
pub open spec fn spec_flag_char(bits: u16, flag: u16, letter: char) -> char {
    if bits & flag == flag {
        letter
    } else {
        '-'
    }
}

/// The letter of an execute position: a dash with neither bit, `x` with the
/// execute bit alone, `upper` with the special bit alone, `lower` with both.
pub open spec fn spec_exec_char(bits: u16, exec: u16, special: u16, lower: char, upper: char)
    -> char {
    let both = bits & (exec | special);
    if both == NONE {
        '-'
    } else if both == exec {
        'x'
    } else if both == special {
        upper
    } else {
        lower
    }
}

fn type_char(bits: u16) -> (c: char)
    ensures
        c == spec_type_char(bits),
{
    let file_type = bits & TYPE_MASK;
    if file_type == TYPE_DIR {
        'd'
    } else if file_type == TYPE_CHAR {
        'c'
    } else if file_type == TYPE_BLOCK {
        'b'
    } else if file_type == TYPE_FILE {
        '-'
    } else if file_type == TYPE_LINK {
        'l'
    } else if file_type == TYPE_SOCKET {
        's'
    } else if file_type == TYPE_FIFO {
        'p'
    } else {
        '?'
    }
}

fn flag_char(bits: u16, flag: u16, letter: char) -> (c: char)
    ensures
        c == spec_flag_char(bits, flag, letter),
{
    if bits & flag == flag {
        letter
    } else {
        '-'
    }
}

fn exec_char(bits: u16, exec: u16, special: u16, lower: char, upper: char) -> (c: char)
    ensures
        c == spec_exec_char(bits, exec, special, lower, upper),
{
    let both = bits & (exec | special);
    if both == NONE {
        '-'
    } else if both == exec {
        'x'
    } else if both == special {
        upper
    } else {
        lower
    }
}

/// Permission bits and file type of an item, as in `mode_t`.
#[derive(Debug, Copy, Clone, PartialEq, Eq, Structural)]
pub struct Mode {
    pub bits: u16,
}

impl Mode {
    pub open spec fn spec_contains(self, other: Mode) -> bool {
        self.bits & other.bits == other.bits
    }

    /// The ten characters that `ls -l` shows for the mode.
    pub open spec fn spec_to_string(self) -> Seq<char> {
        seq![
            spec_type_char(self.bits),
            spec_flag_char(self.bits, USER_READ, 'r'),
            spec_flag_char(self.bits, USER_WRITE, 'w'),
            spec_exec_char(self.bits, USER_EXEC, BIT_SUID, 's', 'S'),
            spec_flag_char(self.bits, GROUP_READ, 'r'),
            spec_flag_char(self.bits, GROUP_WRITE, 'w'),
            spec_exec_char(self.bits, GROUP_EXEC, BIT_SGID, 's', 'S'),
            spec_flag_char(self.bits, OTHER_READ, 'r'),
            spec_flag_char(self.bits, OTHER_WRITE, 'w'),
            spec_exec_char(self.bits, OTHER_EXEC, BIT_STICKY, 't', 'T'),
        ]
    }

    /// The mode with exactly the given bits. Every one of the 16 bits belongs
    /// to the permissions or to the file type, so none is dropped.
    pub fn from_bits_truncate(bits: u16) -> (r: Mode)
        ensures
            r.bits == bits,
    {
        Mode { bits }
    }

    pub fn bits(self) -> (r: u16)
        ensures
            r == self.bits,
    {
        self.bits
    }

    pub fn is_empty(self) -> (r: bool)
        ensures
            r == (self.bits == 0),
    {
        self.bits == 0
    }

    /// Whether every bit of `other` is set in `self`.
    #[verifier::when_used_as_spec(spec_contains)]
    pub fn contains(self, other: Mode) -> (r: bool)
        ensures
            r == self.spec_contains(other),
    {
        self.bits & other.bits == other.bits
    }

    /// The permission bits alone, without the file type.
    pub fn permissions(self) -> (r: Mode)
        ensures
            r.bits == self.bits & PERM_MASK,
    {
        Mode { bits: self.bits & PERM_MASK }
    }

    /// The mode as `ls -l` shows it, such as `-rwxr-xr--`.
    pub fn to_string(self) -> (s: String)
        ensures
            s@ == self.spec_to_string(),
            s@.len() == 10,
    {
        let bits = self.bits;
        let mut s = String::new();
        s.push(type_char(bits));
        s.push(flag_char(bits, USER_READ, 'r'));
        s.push(flag_char(bits, USER_WRITE, 'w'));
        s.push(exec_char(bits, USER_EXEC, BIT_SUID, 's', 'S'));
        s.push(flag_char(bits, GROUP_READ, 'r'));
        s.push(flag_char(bits, GROUP_WRITE, 'w'));
        s.push(exec_char(bits, GROUP_EXEC, BIT_SGID, 's', 'S'));
        s.push(flag_char(bits, OTHER_READ, 'r'));
        s.push(flag_char(bits, OTHER_WRITE, 'w'));
        s.push(exec_char(bits, OTHER_EXEC, BIT_STICKY, 't', 'T'));
        assert(s@ =~= self.spec_to_string());
        s
    }
}

impl Default for Mode {
    fn default() -> (r: Mode)
        ensures
            r.bits == 0,
    {
        Mode { bits: 0 }
    }
}

impl core::ops::BitOr for Mode {
    type Output = Mode;

    fn bitor(self, rhs: Mode) -> (r: Mode) {
        Mode { bits: self.bits | rhs.bits }
    }
}

impl vstd::std_specs::ops::BitOrSpecImpl for Mode {
    open spec fn obeys_bitor_spec() -> bool {
        true
    }

    open spec fn bitor_req(self, rhs: Mode) -> bool {
        true
    }

    open spec fn bitor_spec(self, rhs: Mode) -> Mode {
        Mode { bits: self.bits | rhs.bits }
    }
}

impl core::ops::BitAnd for Mode {
    type Output = Mode;

    fn bitand(self, rhs: Mode) -> (r: Mode) {
        Mode { bits: self.bits & rhs.bits }
    }
}

impl vstd::std_specs::ops::BitAndSpecImpl for Mode {
    open spec fn obeys_bitand_spec() -> bool {
        true
    }

    open spec fn bitand_req(self, rhs: Mode) -> bool {
        true
    }

    open spec fn bitand_spec(self, rhs: Mode) -> Mode {
        Mode { bits: self.bits & rhs.bits }
    }
}

impl PackedStruct for Mode {
    open spec fn spec_size() -> nat {
        2
    }

    open spec fn spec_to_packed(&self) -> Seq<u8> {
        self.bits.spec_to_packed()
    }

    open spec fn spec_from_packed(bytes: Seq<u8>) -> Self {
        Mode { bits: u16::spec_from_packed(bytes) }
    }

    proof fn lemma_round_trip(&self) {
        self.bits.lemma_round_trip();
    }

    fn size() -> (n: usize) {
        2
    }

    fn pack_into(&self, out: &mut Vec<u8>) {
        self.bits.pack_into(out);
    }

    fn from_packed(bytes: &[u8]) -> (r: Self) {
        Mode { bits: u16::from_packed(bytes) }
    }
}

} // verus!
