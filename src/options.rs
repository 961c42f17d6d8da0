use vstd::prelude::*;
use vstd::string::StringSliceAdditionalSpecFns;

verus! {

/// How the start offset of each found string is shown.
#[derive(Debug, Clone, Copy, PartialEq, Eq, Structural)]
pub enum FormatOption {
    NoFormat,
    Decimal,
    Octal,
    Hexadecimal,
}

/// What the found strings are ordered by.
#[derive(Debug, Clone, Copy, PartialEq, Eq, Structural)]
pub enum SortOption {
    /// Sort by start address
    Address,
    /// Sort by length of the string.
    Length,
    /// Sort by likelihood that the string is English text.
    English,
}

/// The direction of the order.
#[derive(Debug, Clone, Copy, PartialEq, Eq, Structural)]
pub enum SortDirection {
    Ascending,
    Descending,
}

/// The format selector that a name stands for: `n`, `d`, `o` or `x`.
pub open spec fn format_named(b: Seq<u8>) -> Option<FormatOption> {
    if b == seq![110u8] {
        Some(FormatOption::NoFormat)
    } else if b == seq![100u8] {
        Some(FormatOption::Decimal)
    } else if b == seq![111u8] {
        Some(FormatOption::Octal)
    } else if b == seq![120u8] {
        Some(FormatOption::Hexadecimal)
    } else {
        None
    }
}

/// The bytes of `address`.
pub open spec fn address_word() -> Seq<u8> {
    seq![97u8, 100, 100, 114, 101, 115, 115]
}

/// The bytes of `length`.
pub open spec fn length_word() -> Seq<u8> {
    seq![108u8, 101, 110, 103, 116, 104]
}

/// The bytes of `english`.
pub open spec fn english_word() -> Seq<u8> {
    seq![101u8, 110, 103, 108, 105, 115, 104]
}

/// The sort selector that a name stands for: `address`, `length` or `english`.
pub open spec fn sort_named(b: Seq<u8>) -> Option<SortOption> {
    if b == address_word() {
        Some(SortOption::Address)
    } else if b == length_word() {
        Some(SortOption::Length)
    } else if b == english_word() {
        Some(SortOption::English)
    } else {
        None
    }
}

fn bytes_equal(a: &[u8], b: &[u8]) -> (r: bool)
    ensures
        r == (a@ == b@),
{
    if a.len() != b.len() {
        return false;
    }
    let mut i: usize = 0;
    while i < a.len()
        invariant
            a@.len() == b@.len(),
            i <= a@.len(),
            forall|k: int| 0 <= k < i ==> a@[k] == b@[k],
        decreases a@.len() - i,
    {
        if a[i] != b[i] {
            return false;
        }
        i = i + 1;
    }
    proof {
        assert(a@ =~= b@);
    }
    true
}

impl FormatOption {
    /// Reads a format selector; an unknown name gives `None`.
    pub fn from_str(s: &str) -> (r: Option<FormatOption>)
        ensures
            r == format_named(s.spec_bytes()),
    {
        let b = s.as_bytes();
        if b.len() != 1 {
            proof {
                assert(b@ != seq![110u8] && b@ != seq![100u8] && b@ != seq![111u8] && b@ != seq![120u8]);
            }
            return None;
        }
        let c = b[0];
        proof {
            assert(b@ =~= seq![c]);
        }
        if c == 110 {
            Some(FormatOption::NoFormat)
        } else if c == 100 {
            Some(FormatOption::Decimal)
        } else if c == 111 {
            Some(FormatOption::Octal)
        } else if c == 120 {
            Some(FormatOption::Hexadecimal)
        } else {
            proof {
                assert(seq![c] != seq![110u8] && seq![c] != seq![100u8] && seq![c] != seq![111u8]);
                assert(seq![c][0] == c);
            }
            None
        }
    }
}

impl SortOption {
    /// Reads a sort selector; an unknown name gives `None`.
    pub fn from_str(s: &str) -> (r: Option<SortOption>)
        ensures
            r == sort_named(s.spec_bytes()),
    {
        let b = s.as_bytes();
        let address: [u8; 7] = [97, 100, 100, 114, 101, 115, 115];
        let length: [u8; 6] = [108, 101, 110, 103, 116, 104];
        let english: [u8; 7] = [101, 110, 103, 108, 105, 115, 104];
        proof {
            assert(address@ =~= address_word());
            assert(length@ =~= length_word());
            assert(english@ =~= english_word());
        }
        if bytes_equal(b, address.as_slice()) {
            Some(SortOption::Address)
        } else if bytes_equal(b, length.as_slice()) {
            Some(SortOption::Length)
        } else if bytes_equal(b, english.as_slice()) {
            Some(SortOption::English)
        } else {
            None
        }
    }
}

} // verus!
