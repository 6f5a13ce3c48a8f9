use vstd::prelude::*;

verus! {

use vstd::arithmetic::div_mod::{lemma_div_denominator, lemma_fundamental_div_mod};
use crate::error::Error;
use crate::text::{
    chars_of, split_chars, split_on, string_from_chars, views, lemma_split_nonempty,
    lemma_split_single,
};


/// A comparable version holding major.minor.build.revision fields, packed
/// into one 64-bit ordinal with the major field in the high bits.
#[derive(Clone, Copy, Debug, PartialEq, Eq, Structural, Ord, Hash)]
pub struct Version(u64);

/// The major field of a packed ordinal.
pub open spec fn major_of(o: u64) -> u16 {
    (o / 0x1_0000_0000_0000) as u16
}

/// The minor field of a packed ordinal.
pub open spec fn minor_of(o: u64) -> u16 {
    ((o / 0x1_0000_0000) % 0x1_0000) as u16
}

/// The build field of a packed ordinal.
pub open spec fn build_of(o: u64) -> u16 {
    ((o / 0x1_0000) % 0x1_0000) as u16
}

/// The revision field of a packed ordinal.
pub open spec fn revision_of(o: u64) -> u16 {
    (o % 0x1_0000) as u16
}

/// The ordinal that packs four fields.
pub open spec fn pack(a: u16, b: u16, c: u16, d: u16) -> u64 {
    (a * 0x1_0000_0000_0000 + b * 0x1_0000_0000 + c * 0x1_0000 + d) as u64
}

/// Packing four fields stays within 64 bits.
pub proof fn lemma_pack_bounded(a: u16, b: u16, c: u16, d: u16)
    ensures
        a * 0x1_0000_0000_0000 + b * 0x1_0000_0000 + c * 0x1_0000 + d <= u64::MAX,
{
    assert(a * 0x1_0000_0000_0000 <= 0xFFFF_0000_0000_0000) by (nonlinear_arith)
        requires a <= 0xFFFF;
    assert(b * 0x1_0000_0000 <= 0xFFFF_0000_0000) by (nonlinear_arith)
        requires b <= 0xFFFF;
    assert(c * 0x1_0000 <= 0xFFFF_0000) by (nonlinear_arith)
        requires c <= 0xFFFF;
}

/// Each field of a packed ordinal reads back the field that was packed.
pub proof fn lemma_unpack(a: u16, b: u16, c: u16, d: u16)
    ensures
        major_of(pack(a, b, c, d)) == a,
        minor_of(pack(a, b, c, d)) == b,
        build_of(pack(a, b, c, d)) == c,
        revision_of(pack(a, b, c, d)) == d,
{
    lemma_pack_bounded(a, b, c, d);
    let o = a * 0x1_0000_0000_0000 + b * 0x1_0000_0000 + c * 0x1_0000 + d;
    assert(o / 0x1_0000_0000_0000 == a) by (nonlinear_arith)
        requires o == a * 0x1_0000_0000_0000 + b * 0x1_0000_0000 + c * 0x1_0000 + d,
            b <= 0xFFFF, c <= 0xFFFF, d <= 0xFFFF, 0 <= a, 0 <= b, 0 <= c, 0 <= d;
    assert(o / 0x1_0000_0000 == a * 0x1_0000 + b) by (nonlinear_arith)
        requires o == a * 0x1_0000_0000_0000 + b * 0x1_0000_0000 + c * 0x1_0000 + d,
            c <= 0xFFFF, d <= 0xFFFF, 0 <= a, 0 <= b, 0 <= c, 0 <= d;
    assert((a * 0x1_0000 + b) % 0x1_0000 == b) by (nonlinear_arith)
        requires b <= 0xFFFF, 0 <= a, 0 <= b;
    assert(o / 0x1_0000 == (a * 0x1_0000 + b) * 0x1_0000 + c) by (nonlinear_arith)
        requires o == a * 0x1_0000_0000_0000 + b * 0x1_0000_0000 + c * 0x1_0000 + d,
            d <= 0xFFFF, 0 <= a, 0 <= b, 0 <= c, 0 <= d;
    assert(((a * 0x1_0000 + b) * 0x1_0000 + c) % 0x1_0000 == c) by (nonlinear_arith)
        requires c <= 0xFFFF, 0 <= a, 0 <= b, 0 <= c;
    assert(o % 0x1_0000 == d) by (nonlinear_arith)
        requires o == a * 0x1_0000_0000_0000 + b * 0x1_0000_0000 + c * 0x1_0000 + d,
            d <= 0xFFFF, 0 <= a, 0 <= b, 0 <= c, 0 <= d;
}

/// Four fields in lexicographic order: the first field that differs decides.
pub open spec fn fields_less(a: Seq<u16>, b: Seq<u16>) -> bool {
    ||| a[0] < b[0]
    ||| a[0] == b[0] && a[1] < b[1]
    ||| a[0] == b[0] && a[1] == b[1] && a[2] < b[2]
    ||| a[0] == b[0] && a[1] == b[1] && a[2] == b[2] && a[3] < b[3]
}

/// Every ordinal is the packing of its own fields.
pub proof fn lemma_decompose(o: u64)
    ensures
        o == pack(major_of(o), minor_of(o), build_of(o), revision_of(o)),
{
    let x = o as int;
    let u: int = 0x1_0000;
    let k = x / u;
    let m = k / u;
    let a = m / u;
    lemma_div_denominator(x, u, u);
    lemma_div_denominator(k, u, u);
    lemma_div_denominator(x, u * u, u);
    assert(u * u == 0x1_0000_0000);
    assert(u * u * u == 0x1_0000_0000_0000);
    assert(m == x / 0x1_0000_0000);
    assert(a == x / 0x1_0000_0000_0000);
    lemma_fundamental_div_mod(x, u);
    lemma_fundamental_div_mod(k, u);
    lemma_fundamental_div_mod(m, u);
    assert(a < u);
    let (b, c, d) = (m % u, k % u, x % u);
    assert(x == a * 0x1_0000_0000_0000 + b * 0x1_0000_0000 + c * 0x1_0000 + d) by (nonlinear_arith)
        requires
            x == u * k + d,
            k == u * m + c,
            m == u * a + b,
            u == 0x1_0000;
}

/// Comparing `x * u + r` with `y * u + s`, for remainders below `u`, compares
/// the quotients first and the remainders after.
proof fn lemma_place_order(x: int, r: int, y: int, s: int, u: int)
    requires
        u > 0,
        0 <= r < u,
        0 <= s < u,
        x >= 0,
        y >= 0,
    ensures
        (x * u + r < y * u + s) <==> (x < y || (x == y && r < s)),
        (x * u + r == y * u + s) <==> (x == y && r == s),
{
    if x < y {
        assert(x * u + u <= y * u) by (nonlinear_arith)
            requires x < y, u > 0;
    } else if x > y {
        assert(y * u + u <= x * u) by (nonlinear_arith)
            requires y < x, u > 0;
    }
}

/// Versions order as their fields do, compared lexicographically from the
/// major field down to the revision; versions with equal fields are equal.
pub proof fn lemma_order_by_fields(x: Version, y: Version)
    ensures
        (x.ordinal() < y.ordinal()) <==> fields_less(x.fields(), y.fields()),
        (x.ordinal() == y.ordinal()) <==> (x.fields() == y.fields()),
        (x == y) <==> (x.fields() == y.fields()),
{
    let (a, b) = (x.ordinal(), y.ordinal());
    lemma_decompose(a);
    lemma_decompose(b);
    let (a0, a1, a2, a3) = (major_of(a) as int, minor_of(a) as int, build_of(a) as int, revision_of(a) as int);
    let (b0, b1, b2, b3) = (major_of(b) as int, minor_of(b) as int, build_of(b) as int, revision_of(b) as int);
    lemma_place_order(a2, a3, b2, b3, 0x1_0000);
    let (ra, rb) = (a2 * 0x1_0000 + a3, b2 * 0x1_0000 + b3);
    lemma_place_order(a1, ra, b1, rb, 0x1_0000_0000);
    let (qa, qb) = (a1 * 0x1_0000_0000 + ra, b1 * 0x1_0000_0000 + rb);
    lemma_place_order(a0, qa, b0, qb, 0x1_0000_0000_0000);
    assert(a == a0 * 0x1_0000_0000_0000 + qa);
    assert(b == b0 * 0x1_0000_0000_0000 + qb);
    if x.fields() == y.fields() {
        assert(x.fields()[0] == y.fields()[0]);
        assert(x.fields()[1] == y.fields()[1]);
        assert(x.fields()[2] == y.fields()[2]);
        assert(x.fields()[3] == y.fields()[3]);
    }
    if x.ordinal() == y.ordinal() {
        assert(x.fields() =~= y.fields());
    }
    lemma_version_ordinal_eq(x, y);
}

proof fn lemma_version_ordinal_eq(x: Version, y: Version)
    ensures
        (x == y) <==> (x.ordinal() == y.ordinal()),
{
}

impl Version {
    /// The packed ordinal.
    pub closed spec fn ordinal(self) -> u64 {
        self.0
    }

    /// Parses dotted text such as `1.2.3.4`, with an optional leading `v` or
    /// `V`. One to four fields are read; the fields left out are 0.
    pub fn parse(value: &str) -> (r: Result<Version, Error>)
        ensures
            match r {
                Ok(v) => parse_version(value@) == Some(v.ordinal()),
                Err(e) => parse_version(value@) is None && e == Error::Format,
            },
    {
        let chars = chars_of(value);
        let start: usize = if chars.len() > 0 && (chars[0] == 'v' || chars[0] == 'V') {
            1
        } else {
            0
        };
        let rest = chars.as_slice().split_at(start).1;
        assert(rest@ =~= strip_v(value@));
        let parts = split_chars(rest, '.');
        let ghost pv = views(parts@);
        assert(pv == version_parts(value@));
        proof {
            lemma_split_nonempty(strip_v(value@), '.');
        }
        assert(pv.len() == parts@.len());
        if parts.len() > 4 {
            assert(!well_formed(value@));
            return Err(Error::Format);
        }
        let mut fields = [0u16; 4];
        let mut i: usize = 0;
        while i < parts.len()
            invariant
                pv == views(parts@),
                pv == version_parts(value@),
                parts@.len() <= 4,
                i <= parts@.len(),
                fields@.len() == 4,
                forall|k: int| 0 <= k < i ==> parse_u16(#[trigger] pv[k]) is Some,
                forall|k: int| 0 <= k < i ==> fields@[k] == field_at(pv, k),
                forall|k: int| i <= k < 4 ==> fields@[k] == 0,
            decreases parts@.len() - i,
        {
            match parse_field(parts[i].as_slice()) {
                Some(f) => {
                    fields[i] = f;
                },
                None => {
                    assert(parts@[i as int]@ == pv[i as int]);
                    assert(parse_u16(pv[i as int]) is None);
                    assert(!well_formed(value@));
                    return Err(Error::Format);
                },
            }
            i = i + 1;
        }
        assert(forall|k: int| 0 <= k < 4 ==> fields@[k] == field_at(pv, k));
        Ok(Version::from_fields(fields))
    }

    /// The dotted four-field text, such as `1.2.3.4`.
    pub fn to_string(&self) -> (r: String)
        ensures
            r@ == version_text(self.ordinal()),
    {
        let mut out: Vec<char> = Vec::new();
        push_decimal(self.major() as u32, &mut out);
        out.push('.');
        push_decimal(self.minor() as u32, &mut out);
        out.push('.');
        push_decimal(self.build() as u32, &mut out);
        out.push('.');
        push_decimal(self.revision() as u32, &mut out);
        assert(out@ =~= version_text(self.ordinal()));
        string_from_chars(out.as_slice())
    }

    /// The version whose packed ordinal is `o`.
    pub closed spec fn from_ordinal_spec(o: u64) -> Version {
        Version(o)
    }

    /// The version that a packed ordinal makes has that ordinal, and a
    /// version is the one its own ordinal makes. What `Version::from` and
    /// `Version::try_from` return is stated through this constructor.
    pub proof fn lemma_from_ordinal(o: u64, v: Version)
        ensures
            Version::from_ordinal_spec(o).ordinal() == o,
            Version::from_ordinal_spec(v.ordinal()) == v,
            (v.ordinal() == o) <==> (v == Version::from_ordinal_spec(o)),
    {
    }

    /// The four fields, most significant first.
    pub open spec fn fields(self) -> Seq<u16> {
        seq![
            major_of(self.ordinal()),
            minor_of(self.ordinal()),
            build_of(self.ordinal()),
            revision_of(self.ordinal()),
        ]
    }

    /// Gets the major version number.
    pub fn major(&self) -> (r: u16)
        ensures
            r == major_of(self.ordinal()),
    {
        (self.0 / 0x1_0000_0000_0000) as u16
    }

    /// Gets the minor version number.
    pub fn minor(&self) -> (r: u16)
        ensures
            r == minor_of(self.ordinal()),
    {
        ((self.0 / 0x1_0000_0000) % 0x1_0000) as u16
    }

    /// Gets the build version number.
    pub fn build(&self) -> (r: u16)
        ensures
            r == build_of(self.ordinal()),
    {
        ((self.0 / 0x1_0000) % 0x1_0000) as u16
    }

    /// Gets the revision version number.
    pub fn revision(&self) -> (r: u16)
        ensures
            r == revision_of(self.ordinal()),
    {
        (self.0 % 0x1_0000) as u16
    }

    /// The version whose packed ordinal is `value`.
    pub fn from_u64(value: u64) -> (r: Version)
        ensures
            r.ordinal() == value,
    {
        Version(value)
    }

    /// The packed ordinal of this version.
    pub fn to_u64(&self) -> (r: u64)
        ensures
            r == self.ordinal(),
    {
        self.0
    }

    /// The version with the given fields, most significant first.
    pub fn from_fields(fields: [u16; 4]) -> (r: Version)
        ensures
            r.ordinal() == pack(fields@[0], fields@[1], fields@[2], fields@[3]),
            r.fields() == fields@,
    {
        let a = fields[0] as u64;
        let b = fields[1] as u64;
        let c = fields[2] as u64;
        let d = fields[3] as u64;
        proof {
            lemma_pack_bounded(fields[0], fields[1], fields[2], fields[3]);
            lemma_unpack(fields[0], fields[1], fields[2], fields[3]);
        }
        Version(a * 0x1_0000_0000_0000 + b * 0x1_0000_0000 + c * 0x1_0000 + d)
    }
}

/// Whether a character is an ASCII decimal digit.
pub open spec fn is_digit(c: char) -> bool {
    '0' <= c <= '9'
}

/// The value of a decimal digit character.
pub open spec fn digit_value(c: char) -> nat {
    (c as u32 - '0' as u32) as nat
}

/// The value of a run of decimal digits, most significant first.
pub open spec fn digits_value(d: Seq<char>) -> nat
    decreases d.len(),
{
    if d.len() == 0 {
        0
    } else {
        digits_value(d.drop_last()) * 10 + digit_value(d.last())
    }
}

/// Whether every character is a decimal digit.
pub open spec fn all_digits(d: Seq<char>) -> bool {
    forall|i: int| 0 <= i < d.len() ==> is_digit(#[trigger] d[i])
}

/// A field as `str::parse::<u16>` reads it: an optional `+`, then one or more
/// decimal digits whose value fits in 16 bits.
pub open spec fn parse_u16(p: Seq<char>) -> Option<u16> {
    let d = if p.len() > 0 && p[0] == '+' { p.drop_first() } else { p };
    if d.len() > 0 && all_digits(d) && digits_value(d) <= 0xFFFF {
        Some(digits_value(d) as u16)
    } else {
        None
    }
}

/// Drops one leading `v` or `V`, if there is one.
pub open spec fn strip_v(s: Seq<char>) -> Seq<char> {
    if s.len() > 0 && (s[0] == 'v' || s[0] == 'V') {
        s.drop_first()
    } else {
        s
    }
}

/// The dot-separated fields of a version string, after its prefix.
pub open spec fn version_parts(s: Seq<char>) -> Seq<Seq<char>> {
    split_on(strip_v(s), '.')
}

/// The value of field `i`, or 0 where the string gives fewer fields.
pub open spec fn field_at(parts: Seq<Seq<char>>, i: int) -> u16 {
    if i < parts.len() {
        parse_u16(parts[i])->0
    } else {
        0
    }
}

/// Whether a version string has one to four fields, each a 16-bit number.
pub open spec fn well_formed(s: Seq<char>) -> bool {
    let parts = version_parts(s);
    &&& parts.len() <= 4
    &&& forall|i: int| 0 <= i < parts.len() ==> (#[trigger] parse_u16(parts[i])) is Some
}

/// The ordinal a version string denotes, or `None` where it does not parse.
pub open spec fn parse_version(s: Seq<char>) -> Option<u64> {
    let parts = version_parts(s);
    if well_formed(s) {
        Some(pack(field_at(parts, 0), field_at(parts, 1), field_at(parts, 2), field_at(parts, 3)))
    } else {
        None
    }
}

/// The decimal digit character for a value below ten.
pub open spec fn digit_char(n: nat) -> char {
    ((n + '0' as u32) as u32) as char
}

/// The decimal text of a number, without leading zeros.
pub open spec fn decimal(n: nat) -> Seq<char>
    decreases n,
{
    if n < 10 {
        seq![digit_char(n)]
    } else {
        decimal(n / 10).push(digit_char(n % 10))
    }
}

/// The dotted text of four fields.
pub open spec fn dotted(a: u16, b: u16, c: u16, d: u16) -> Seq<char> {
    decimal(a as nat) + seq!['.'] + decimal(b as nat) + seq!['.'] + decimal(c as nat) + seq!['.']
        + decimal(d as nat)
}

/// The canonical text of a well-formed version string: all four fields in
/// decimal, with the fields it leaves out written as 0.
pub open spec fn canonical_text(s: Seq<char>) -> Seq<char> {
    let parts = version_parts(s);
    dotted(field_at(parts, 0), field_at(parts, 1), field_at(parts, 2), field_at(parts, 3))
}

/// The text of a version ordinal.
pub open spec fn version_text(o: u64) -> Seq<char> {
    dotted(major_of(o), minor_of(o), build_of(o), revision_of(o))
}

/// Parsing a well-formed version string and formatting the result gives its
/// canonical four-field text.
pub proof fn lemma_parse_format_round_trip(s: Seq<char>)
    requires
        well_formed(s),
    ensures
        parse_version(s) is Some,
        version_text(parse_version(s)->0) == canonical_text(s),
{
    let parts = version_parts(s);
    lemma_unpack(field_at(parts, 0), field_at(parts, 1), field_at(parts, 2), field_at(parts, 3));
}

/// A version string with more than four fields, or with a field that is not a
/// 16-bit number, does not parse.
pub proof fn lemma_malformed_rejected(s: Seq<char>, i: int)
    requires
        version_parts(s).len() > 4 || (0 <= i < version_parts(s).len() && parse_u16(
            version_parts(s)[i],
        ) is None),
    ensures
        parse_version(s) is None,
{
}

/// The decimal text of a number is a non-empty run of digits with that value.
pub proof fn lemma_decimal_digits(n: nat)
    ensures
        decimal(n).len() > 0,
        all_digits(decimal(n)),
        digits_value(decimal(n)) == n,
    decreases n,
{
    let c = digit_char(n % 10);
    assert('0' as u32 == 48);
    assert(c as u32 == (n % 10) + 48);
    assert(digit_value(c) == n % 10);
    assert(is_digit(c));
    if n >= 10 {
        lemma_decimal_digits(n / 10);
        let d = decimal(n);
        assert(d.drop_last() =~= decimal(n / 10));
        assert(d.last() == c);
        assert(digits_value(d) == digits_value(decimal(n / 10)) * 10 + digit_value(c));
        assert forall|i: int| 0 <= i < d.len() implies is_digit(#[trigger] d[i]) by {
            if i < d.len() - 1 {
                assert(d[i] == decimal(n / 10)[i]);
            }
        }
    } else {
        assert(decimal(n).drop_last() =~= Seq::<char>::empty());
        assert(decimal(n).last() == c);
        assert(digits_value(decimal(n)) == digits_value(Seq::<char>::empty()) * 10 + digit_value(c));
    }
}

/// A separator followed by a text without it adds that text as one piece.
proof fn lemma_split_append(p: Seq<char>, x: Seq<char>, sep: char)
    requires
        forall|i: int| 0 <= i < x.len() ==> x[i] != sep,
    ensures
        split_on(p + seq![sep] + x, sep) == split_on(p, sep).push(x),
    decreases x.len(),
{
    let s = p + seq![sep] + x;
    if x.len() == 0 {
        assert(s.drop_last() =~= p);
        assert(x =~= Seq::<char>::empty());
    } else {
        lemma_split_append(p, x.drop_last(), sep);
        assert(s.drop_last() =~= p + seq![sep] + x.drop_last());
        assert(s.last() == x.last());
        assert(x.drop_last().push(x.last()) =~= x);
        assert(split_on(p, sep).push(x.drop_last()).update(split_on(p, sep).len() as int, x)
            =~= split_on(p, sep).push(x));
    }
}

/// Formatting a version and parsing the text gives the same version back.
pub proof fn lemma_format_parse_round_trip(o: u64)
    ensures
        parse_version(version_text(o)) == Some(o),
{
    let (a, b, c, d) = (major_of(o), minor_of(o), build_of(o), revision_of(o));
    lemma_decimal_digits(a as nat);
    lemma_decimal_digits(b as nat);
    lemma_decimal_digits(c as nat);
    lemma_decimal_digits(d as nat);
    let (da, db, dc, dd) = (decimal(a as nat), decimal(b as nat), decimal(c as nat), decimal(d as nat));
    assert forall|i: int| 0 <= i < da.len() implies da[i] != '.' by {
        assert(is_digit(da[i]));
    }
    assert forall|i: int| 0 <= i < db.len() implies db[i] != '.' by {
        assert(is_digit(db[i]));
    }
    assert forall|i: int| 0 <= i < dc.len() implies dc[i] != '.' by {
        assert(is_digit(dc[i]));
    }
    assert forall|i: int| 0 <= i < dd.len() implies dd[i] != '.' by {
        assert(is_digit(dd[i]));
    }
    lemma_split_single(da, '.');
    lemma_split_append(da, db, '.');
    lemma_split_append(da + seq!['.'] + db, dc, '.');
    lemma_split_append(da + seq!['.'] + db + seq!['.'] + dc, dd, '.');
    let text = version_text(o);
    assert(is_digit(da[0]));
    assert(text[0] == da[0]);
    assert(strip_v(text) == text);
    let parts = version_parts(text);
    assert(parts =~= seq![da, db, dc, dd]);
    assert(parse_u16(da) == Some(a));
    assert(parse_u16(db) == Some(b));
    assert(parse_u16(dc) == Some(c));
    assert(parse_u16(dd) == Some(d));
    lemma_decompose(o);
}

/// The value of a prefix of a run of digits never exceeds the value of the run.
proof fn lemma_digits_prefix(d: Seq<char>, j: int)
    requires
        0 <= j <= d.len(),
        all_digits(d),
    ensures
        digits_value(d.take(j)) <= digits_value(d),
    decreases d.len(),
{
    if j < d.len() {
        assert(all_digits(d.drop_last()));
        lemma_digits_prefix(d.drop_last(), j);
        assert(d.drop_last().take(j) =~= d.take(j));
    } else {
        assert(d.take(j) =~= d);
    }
}

/// Reads one field as `str::parse::<u16>` does.
pub fn parse_field(p: &[char]) -> (r: Option<u16>)
    ensures
        r == parse_u16(p@),
{
    let start: usize = if p.len() > 0 && p[0] == '+' { 1 } else { 0 };
    let ghost d = if p@.len() > 0 && p@[0] == '+' { p@.drop_first() } else { p@ };
    assert(d =~= p@.skip(start as int));
    if start >= p.len() {
        return None;
    }
    let mut value: u32 = 0;
    let mut j: usize = start;
    while j < p.len()
        invariant
            start <= j <= p@.len(),
            d == p@.skip(start as int),
            d == (if p@.len() > 0 && p@[0] == '+' { p@.drop_first() } else { p@ }),
            value as nat == digits_value(d.take(j - start)),
            value <= 0xFFFF,
            all_digits(d.take(j - start)),
        decreases p@.len() - j,
    {
        let c = p[j];
        if !('0' <= c && c <= '9') {
            assert(d[j - start] == c);
            assert(!is_digit(d[j - start]));
            assert(!all_digits(d));
            assert(parse_u16(p@) is None);
            return None;
        }
        let ghost k = j - start;
        assert(d.take(k + 1).drop_last() =~= d.take(k));
        assert(d.take(k + 1).last() == c);
        let digit = (c as u32) - ('0' as u32);
        value = value * 10 + digit;
        j = j + 1;
        assert(all_digits(d.take(j - start))) by {
            assert forall|i: int| 0 <= i < d.take(j - start).len() implies is_digit(
                #[trigger] d.take(j - start)[i],
            ) by {
                if i < k {
                    assert(d.take(k)[i] == d.take(j - start)[i]);
                }
            }
        }
        if value > 0xFFFF {
            proof {
                if all_digits(d) {
                    lemma_digits_prefix(d, j - start);
                    assert(digits_value(d) > 0xFFFF);
                }
            }
            return None;
        }
    }
    assert(d.take(j - start) =~= d);
    Some(value as u16)
}

/// Appends the decimal text of `n`.
pub fn push_decimal(n: u32, out: &mut Vec<char>)
    ensures
        final(out)@ == old(out)@ + decimal(n as nat),
    decreases n,
{
    if n >= 10 {
        push_decimal(n / 10, out);
    }
    let d = (n % 10) as u8;
    out.push((d + 48) as char);
    assert(((d + 48) as char) == digit_char((n % 10) as nat));
}

impl Default for Version {
    fn default() -> (r: Version)
        ensures
            r.ordinal() == 0,
    {
        Version(0)
    }
}

impl PartialOrd for Version {
    fn partial_cmp(&self, other: &Version) -> (r: Option<core::cmp::Ordering>) {
        if self.0 < other.0 {
            Some(core::cmp::Ordering::Less)
        } else if self.0 == other.0 {
            Some(core::cmp::Ordering::Equal)
        } else {
            Some(core::cmp::Ordering::Greater)
        }
    }
}

impl vstd::std_specs::cmp::PartialOrdSpecImpl for Version {
    open spec fn obeys_partial_cmp_spec() -> bool {
        true
    }

    open spec fn partial_cmp_spec(&self, other: &Version) -> Option<core::cmp::Ordering> {
        if self.ordinal() < other.ordinal() {
            Some(core::cmp::Ordering::Less)
        } else if self.ordinal() == other.ordinal() {
            Some(core::cmp::Ordering::Equal)
        } else {
            Some(core::cmp::Ordering::Greater)
        }
    }
}

impl From<[u16; 4]> for Version {
    fn from(value: [u16; 4]) -> (r: Version) {
        Version::from_fields(value)
    }
}

impl vstd::std_specs::convert::FromSpecImpl<[u16; 4]> for Version {
    open spec fn obeys_from_spec() -> bool {
        true
    }

    open spec fn from_spec(v: [u16; 4]) -> Version {
        Version::from_ordinal_spec(pack(v@[0], v@[1], v@[2], v@[3]))
    }
}

impl From<u64> for Version {
    fn from(value: u64) -> (r: Version) {
        Version::from_u64(value)
    }
}

impl vstd::std_specs::convert::FromSpecImpl<u64> for Version {
    open spec fn obeys_from_spec() -> bool {
        true
    }

    open spec fn from_spec(v: u64) -> Version {
        Version::from_ordinal_spec(v)
    }
}

impl<'a> TryFrom<&'a str> for Version {
    type Error = Error;

    fn try_from(value: &'a str) -> (r: Result<Version, Error>) {
        Version::parse(value)
    }
}

impl<'a> vstd::std_specs::convert::TryFromSpecImpl<&'a str> for Version {
    open spec fn obeys_try_from_spec() -> bool {
        true
    }

    open spec fn try_from_spec(v: &'a str) -> Result<Version, Error> {
        match parse_version(v@) {
            Some(o) => Ok(Version::from_ordinal_spec(o)),
            None => Err(Error::Format),
        }
    }
}

impl TryFrom<String> for Version {
    type Error = Error;

    fn try_from(value: String) -> (r: Result<Version, Error>) {
        Version::parse(value.as_str())
    }
}

impl vstd::std_specs::convert::TryFromSpecImpl<String> for Version {
    open spec fn obeys_try_from_spec() -> bool {
        true
    }

    open spec fn try_from_spec(v: String) -> Result<Version, Error> {
        match parse_version(v@) {
            Some(o) => Ok(Version::from_ordinal_spec(o)),
            None => Err(Error::Format),
        }
    }
}

impl From<Version> for u64 {
    fn from(value: Version) -> (r: u64) {
        value.to_u64()
    }
}

impl vstd::std_specs::convert::FromSpecImpl<Version> for u64 {
    open spec fn obeys_from_spec() -> bool {
        true
    }

    open spec fn from_spec(v: Version) -> u64 {
        v.ordinal()
    }
}

} // verus!
