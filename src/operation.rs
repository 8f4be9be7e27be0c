use vstd::prelude::*;
use vstd::string::*;

verus! {

/// The kind of a memory access.
#[derive(Clone, Copy, Debug, PartialEq, Eq, Structural)]
pub enum Op {
    R,
    W,
}

/// Errors of the simulator.
#[derive(Clone, Copy, Debug, PartialEq, Eq, Structural)]
pub enum SimError {
    /// A trace line is not `<hex-address> <R|W>`.
    MalformedTraceLine,
    /// The trace could not be opened or read.
    TraceSourceUnavailable,
    /// A memory size of zero or an unknown policy name.
    InvalidConfiguration,
}

/// One memory access decoded from a trace line.
#[derive(Clone, Copy, Debug, PartialEq, Eq, Structural)]
pub struct Operation {
    pub virtual_address: u32,
    pub virtual_page_number: u32,
    pub page_offset: u32,
    pub op: Op,
}

/// Number of bits of the offset within a page.
pub const PAGE_SHIFT: u32 = 12;

/// Mask selecting the offset within a page.
pub const OFFSET_MASK: u32 = 0xfff;

pub open spec fn is_hex_digit(c: char) -> bool {
    ('0' <= c && c <= '9') || ('a' <= c && c <= 'f') || ('A' <= c && c <= 'F')
}

pub open spec fn hex_digit_value(c: char) -> nat {
    if '0' <= c && c <= '9' {
        (c as int - '0' as int) as nat
    } else if 'a' <= c && c <= 'f' {
        (c as int - 'a' as int + 10) as nat
    } else if 'A' <= c && c <= 'F' {
        (c as int - 'A' as int + 10) as nat
    } else {
        0
    }
}

/// A non-empty run of hexadecimal digits.
pub open spec fn is_hex(s: Seq<char>) -> bool {
    s.len() > 0 && forall|i: int| 0 <= i < s.len() ==> is_hex_digit(#[trigger] s[i])
}

/// The number that a string of hexadecimal digits denotes, most significant first.
pub open spec fn hex_value(s: Seq<char>) -> nat
    decreases s.len(),
{
    if s.len() == 0 {
        0
    } else {
        hex_value(s.drop_last()) * 16 + hex_digit_value(s.last())
    }
}

/// The operation that an address and a kind describe.
pub open spec fn operation_of(va: u32, op: Op) -> Operation {
    Operation {
        virtual_address: va,
        virtual_page_number: va >> 12u32,
        page_offset: va & 0xfffu32,
        op,
    }
}

/// The address field of a line: everything before the final space and code.
pub open spec fn address_field(line: Seq<char>) -> Seq<char> {
    line.subrange(0, line.len() - 2)
}

/// What a trace line decodes to: `<hex-address> <R|W>`, one space apart,
/// nothing before or after, the address fitting in 32 bits.
pub open spec fn parse_spec(line: Seq<char>) -> Result<Operation, SimError> {
    if line.len() >= 3 && line[line.len() - 2] == ' ' && (line.last() == 'R' || line.last()
        == 'W') && is_hex(address_field(line)) && hex_value(address_field(line)) <= u32::MAX {
        Ok(
            operation_of(
                hex_value(address_field(line)) as u32,
                if line.last() == 'R' {
                    Op::R
                } else {
                    Op::W
                },
            ),
        )
    } else {
        Err(SimError::MalformedTraceLine)
    }
}

/// An operation whose page number and offset are derived from its address.
pub open spec fn wf_operation(o: Operation) -> bool {
    o == operation_of(o.virtual_address, o.op)
}

proof fn lemma_hex_value_prefix(s: Seq<char>, i: int)
    requires
        0 <= i <= s.len(),
    ensures
        hex_value(s.take(i)) <= hex_value(s),
    decreases s.len(),
{
    if i < s.len() {
        assert(s.take(i) =~= s.drop_last().take(i));
        lemma_hex_value_prefix(s.drop_last(), i);
    } else {
        assert(s.take(i) =~= s);
    }
}

fn hex_digit(c: char) -> (r: Option<u32>)
    ensures
        is_hex_digit(c) <==> r is Some,
        r is Some ==> r->0 as nat == hex_digit_value(c) && r->0 < 16,
{
    if '0' <= c && c <= '9' {
        Some(c as u32 - '0' as u32)
    } else if 'a' <= c && c <= 'f' {
        Some(c as u32 - 'a' as u32 + 10)
    } else if 'A' <= c && c <= 'F' {
        Some(c as u32 - 'A' as u32 + 10)
    } else {
        None
    }
}

impl Operation {
    /// Decodes a trace line `<hex-address> <R|W>`.
    pub fn parse_line(line: String) -> (r: Result<Operation, SimError>)
        ensures
            r == parse_spec(line@),
            r is Ok ==> wf_operation(r->Ok_0),
    {
        let s = line.as_str();
        let n = s.unicode_len();
        if n < 3 {
            return Err(SimError::MalformedTraceLine);
        }
        let code = s.get_char(n - 1);
        let sep = s.get_char(n - 2);
        if sep != ' ' {
            return Err(SimError::MalformedTraceLine);
        }
        let op = if code == 'R' {
            Op::R
        } else if code == 'W' {
            Op::W
        } else {
            return Err(SimError::MalformedTraceLine);
        };
        let ghost addr = address_field(line@);
        let mut value: u64 = 0;
        let mut i: usize = 0;
        while i < n - 2
            invariant
                n == line@.len(),
                s@ == line@,
                n >= 3,
                addr == address_field(line@),
                0 <= i <= n - 2,
                value as nat == hex_value(addr.take(i as int)),
                value <= u32::MAX,
                forall|j: int| 0 <= j < i ==> is_hex_digit(#[trigger] addr[j]),
            decreases n - 2 - i,
        {
            let c = s.get_char(i);
            let d = match hex_digit(c) {
                Some(d) => d,
                None => {
                    assert(addr[i as int] == c);
                    assert(!is_hex_digit(addr[i as int]));
                    return Err(SimError::MalformedTraceLine);
                },
            };
            assert(addr.take(i + 1).drop_last() =~= addr.take(i as int));
            value = value * 16 + d as u64;
            i = i + 1;
            if value > u32::MAX as u64 {
                proof {
                    lemma_hex_value_prefix(addr, i as int);
                }
                return Err(SimError::MalformedTraceLine);
            }
        }
        assert(addr.take(i as int) =~= addr);
        let va = value as u32;
        Ok(
            Operation {
                virtual_address: va,
                virtual_page_number: va >> PAGE_SHIFT,
                page_offset: va & OFFSET_MASK,
                op,
            },
        )
    }
}

} // verus!
