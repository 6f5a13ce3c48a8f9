use vstd::prelude::*;

verus! {

/// The kinds of failure the library reports.
#[derive(Clone, Copy, Debug, PartialEq, Eq, Structural)]
pub enum Error {
    /// A version string did not parse.
    Format,
    /// A requested node or value does not exist.
    NotFound,
    /// An unrecognized scope name or a similar invalid input.
    NotSupported,
    /// Any other failure of the store, with its native error code.
    RegistryError(i32),
}

/// The lowercase hexadecimal digit for a value below sixteen.
pub open spec fn hex_char(n: nat) -> char {
    if n < 10 {
        ((n + '0' as u32) as u32) as char
    } else {
        ((n - 10 + 'a' as u32) as u32) as char
    }
}

/// The low `n` hexadecimal digits of `x`, most significant first.
pub open spec fn hex_digits(x: nat, n: nat) -> Seq<char>
    decreases n,
{
    if n == 0 {
        Seq::empty()
    } else {
        hex_digits(x / 16, (n - 1) as nat).push(hex_char(x % 16))
    }
}

/// The text that describes an error.
pub open spec fn error_text(e: Error) -> Seq<char> {
    match e {
        Error::Format => "invalid format"@,
        Error::NotFound => "not found"@,
        Error::NotSupported => "not supported"@,
        Error::RegistryError(code) => "store error 0x"@ + hex_digits(code as u32 as nat, 8),
    }
}

/// Appends the low `n` hexadecimal digits of `x`.
fn push_hex(x: u32, n: usize, out: &mut Vec<char>)
    ensures
        final(out)@ == old(out)@ + hex_digits(x as nat, n as nat),
    decreases n,
{
    if n > 0 {
        push_hex(x / 16, n - 1, out);
        let d = (x % 16) as u8;
        let c = if d < 10 { (d + 48) as char } else { (d - 10 + 97) as char };
        assert(c == hex_char((x % 16) as nat));
        out.push(c);
    }
}

impl Error {
    /// A short description, with the native code of a store failure in
    /// hexadecimal.
    pub fn to_string(&self) -> (r: String)
        ensures
            r@ == error_text(*self),
    {
        match self {
            Error::Format => String::from_str("invalid format"),
            Error::NotFound => String::from_str("not found"),
            Error::NotSupported => String::from_str("not supported"),
            Error::RegistryError(code) => {
                let mut digits: Vec<char> = Vec::new();
                push_hex(*code as u32, 8, &mut digits);
                assert(digits@ =~= hex_digits(*code as u32 as nat, 8));
                let hex = crate::text::string_from_chars(digits.as_slice());
                let mut text = String::from_str("store error 0x");
                text.append(hex.as_str());
                text
            },
        }
    }
}

} // verus!
