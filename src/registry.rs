use vstd::prelude::*;

verus! {

use crate::text::{
    chars_of, encode_utf16, from_utf16_lossy, split_chars, split_on, split_units,
    string_from_chars, utf16_lossy, utf16_of, unit_views, lemma_split_first_empty,
    lemma_split_nonempty, lemma_split_pieces_free, lemma_split_single,
};

/// Type tag of a single string.
pub const REG_SZ: u32 = 1;

/// Type tag of a single string that holds environment references.
pub const REG_EXPAND_SZ: u32 = 2;

/// Type tag of opaque binary data.
pub const REG_BINARY: u32 = 3;

/// Type tag of a 32-bit little-endian integer.
pub const REG_DWORD: u32 = 4;

/// Type tag of a list of strings.
pub const REG_MULTI_SZ: u32 = 7;

/// Type tag of a 64-bit little-endian integer.
pub const REG_QWORD: u32 = 11;

/// A decoded value.
#[derive(Debug)]
pub enum Data {
    Binary(Vec<u8>),
    DWord(u32),
    MultiString(Vec<String>),
    QWord(u64),
    String(String),
}

/// The mathematical content of a [`Data`].
pub enum DataView {
    Binary(Seq<u8>),
    DWord(u32),
    MultiString(Seq<Seq<char>>),
    QWord(u64),
    String(Seq<char>),
}

/// The character sequences that a list of strings holds.
pub open spec fn string_views(v: Seq<String>) -> Seq<Seq<char>> {
    v.map_values(|s: String| s@)
}

impl View for Data {
    type V = DataView;

    open spec fn view(&self) -> DataView {
        match self {
            Data::Binary(b) => DataView::Binary(b@),
            Data::DWord(x) => DataView::DWord(*x),
            Data::MultiString(v) => DataView::MultiString(string_views(v@)),
            Data::QWord(x) => DataView::QWord(*x),
            Data::String(s) => DataView::String(s@),
        }
    }
}

/// The unsigned value of bytes read little-endian.
pub open spec fn le_value(b: Seq<u8>) -> nat
    decreases b.len(),
{
    if b.len() == 0 {
        0
    } else {
        b[0] as nat + 256 * le_value(b.drop_first())
    }
}

/// The UTF-16 code units of bytes read in little-endian pairs; an odd last byte
/// is left out.
pub open spec fn units_of(b: Seq<u8>) -> Seq<u16> {
    Seq::new(b.len() / 2, |i: int| (b[2 * i] as nat + 256 * b[2 * i + 1] as nat) as u16)
}

/// The runs between NULs that are not empty, in order.
pub open spec fn segments(u: Seq<u16>) -> Seq<Seq<u16>> {
    split_on(u, 0u16).filter(|s: Seq<u16>| s.len() > 0)
}

/// What a payload with the given type tag decodes to, or `None` where the tag
/// is unknown or an integer payload has the wrong length.
pub open spec fn decode(data: Seq<u8>, kind: u32) -> Option<DataView> {
    if kind == REG_BINARY {
        Some(DataView::Binary(data))
    } else if kind == REG_DWORD {
        if data.len() == 4 {
            Some(DataView::DWord(le_value(data) as u32))
        } else {
            None
        }
    } else if kind == REG_QWORD {
        if data.len() == 8 {
            Some(DataView::QWord(le_value(data) as u64))
        } else {
            None
        }
    } else if kind == REG_SZ || kind == REG_EXPAND_SZ {
        Some(DataView::String(utf16_lossy(split_on(units_of(data), 0u16)[0])))
    } else if kind == REG_MULTI_SZ {
        Some(DataView::MultiString(segments(units_of(data)).map_values(|s: Seq<u16>| utf16_lossy(s))))
    } else {
        None
    }
}

proof fn lemma_le_value_bound(b: Seq<u8>)
    ensures
        le_value(b) < pow256(b.len()),
    decreases b.len(),
{
    if b.len() > 0 {
        lemma_le_value_bound(b.drop_first());
    }
}

/// 256 to the power `n`.
pub open spec fn pow256(n: nat) -> nat
    decreases n,
{
    if n == 0 {
        1
    } else {
        256 * pow256((n - 1) as nat)
    }
}

/// Reads bytes as a little-endian unsigned integer.
fn read_le(b: &[u8]) -> (r: u64)
    requires
        b@.len() <= 8,
    ensures
        r as nat == le_value(b@),
{
    proof {
        lemma_le_value_bound(b@);
        reveal_with_fuel(pow256, 9);
    }
    let mut r: u64 = 0;
    let mut i: usize = b.len();
    while i > 0
        invariant
            i <= b@.len() <= 8,
            r as nat == le_value(b@.skip(i as int)),
            le_value(b@.skip(i as int)) < pow256((b@.len() - i) as nat),
        decreases i,
    {
        i = i - 1;
        assert(b@.skip(i as int).drop_first() =~= b@.skip(i as int + 1));
        proof {
            lemma_le_value_bound(b@.skip(i as int));
            reveal_with_fuel(pow256, 9);
            assert(pow256((b@.len() - i - 1) as nat) <= pow256(7));
        }
        assert(r * 256 + b[i as int] < pow256((b@.len() - i) as nat)) by (nonlinear_arith)
            requires
                r < pow256((b@.len() - i - 1) as nat),
                pow256((b@.len() - i) as nat) == 256 * pow256((b@.len() - i - 1) as nat),
                b[i as int] < 256;
        r = b[i] as u64 + 256 * r;
    }
    assert(b@.skip(0) =~= b@);
    r
}

/// The low `n` bytes of `x`, least significant first.
pub open spec fn le_bytes(x: nat, n: nat) -> Seq<u8>
    decreases n,
{
    if n == 0 {
        Seq::empty()
    } else {
        seq![(x % 256) as u8] + le_bytes(x / 256, (n - 1) as nat)
    }
}

/// UTF-16 code units as little-endian bytes.
pub open spec fn unit_bytes(u: Seq<u16>) -> Seq<u8>
    decreases u.len(),
{
    if u.len() == 0 {
        Seq::empty()
    } else {
        unit_bytes(u.drop_last()) + seq![(u.last() % 256) as u8, (u.last() / 256) as u8]
    }
}

/// The code units of a list of strings, each followed by a NUL.
pub open spec fn multi_units(ss: Seq<Seq<char>>) -> Seq<u16>
    decreases ss.len(),
{
    if ss.len() == 0 {
        Seq::empty()
    } else {
        multi_units(ss.drop_last()) + utf16_of(ss.last()).push(0u16)
    }
}

/// The type tag and payload that store a value: integers little-endian,
/// strings as NUL-terminated UTF-16, and a list of strings with one more NUL
/// at its end.
pub open spec fn encode(d: DataView) -> (u32, Seq<u8>) {
    match d {
        DataView::Binary(b) => (REG_BINARY, b),
        DataView::DWord(x) => (REG_DWORD, le_bytes(x as nat, 4)),
        DataView::QWord(x) => (REG_QWORD, le_bytes(x as nat, 8)),
        DataView::String(s) => (REG_SZ, unit_bytes(utf16_of(s).push(0u16))),
        DataView::MultiString(ss) => (REG_MULTI_SZ, unit_bytes(multi_units(ss).push(0u16))),
    }
}

/// Whether a value reads back as itself once stored: every value but a list of
/// strings, and a string only where it holds no NUL, which would end it.
pub open spec fn round_trips(d: DataView) -> bool {
    match d {
        DataView::MultiString(_) => false,
        DataView::String(s) => forall|i: int| 0 <= i < s.len() ==> s[i] != '\0',
        _ => true,
    }
}

/// Reading back the low `n` bytes of a number below `256^n` gives the number.
pub proof fn lemma_le_round_trip(x: nat, n: nat)
    requires
        x < pow256(n),
    ensures
        le_bytes(x, n).len() == n,
        le_value(le_bytes(x, n)) == x,
    decreases n,
{
    if n > 0 {
        assert(x / 256 < pow256((n - 1) as nat)) by (nonlinear_arith)
            requires x < 256 * pow256((n - 1) as nat);
        lemma_le_round_trip(x / 256, (n - 1) as nat);
        let b = le_bytes(x, n);
        assert(b.drop_first() =~= le_bytes(x / 256, (n - 1) as nat));
        assert(x == x % 256 + 256 * (x / 256));
    }
}

/// Code units stored as bytes read back as the same code units.
pub proof fn lemma_units_round_trip(u: Seq<u16>)
    ensures
        unit_bytes(u).len() == 2 * u.len(),
        units_of(unit_bytes(u)) == u,
    decreases u.len(),
{
    if u.len() > 0 {
        lemma_units_round_trip(u.drop_last());
    }
    lemma_unit_bytes_index(u);
    assert(units_of(unit_bytes(u)) =~= u) by {
        assert forall|i: int| 0 <= i < u.len() implies units_of(unit_bytes(u))[i] == u[i] by {
            let x = u[i];
            assert(x as nat == (x % 256) as nat + 256 * (x / 256) as nat);
        }
    }
}

proof fn lemma_unit_bytes_index(u: Seq<u16>)
    ensures
        unit_bytes(u).len() == 2 * u.len(),
        forall|i: int|
            0 <= i < u.len() ==> unit_bytes(u)[2 * i] == (#[trigger] u[i] % 256) as u8 && unit_bytes(
                u,
            )[2 * i + 1] == (u[i] / 256) as u8,
    decreases u.len(),
{
    if u.len() > 0 {
        lemma_unit_bytes_index(u.drop_last());
        let p = u.drop_last();
        assert forall|i: int| 0 <= i < u.len() implies unit_bytes(u)[2 * i] == (#[trigger] u[i] % 256) as u8
            && unit_bytes(u)[2 * i + 1] == (u[i] / 256) as u8 by {
            let tail = seq![(u.last() % 256) as u8, (u.last() / 256) as u8];
            assert(unit_bytes(u) == unit_bytes(p) + tail);
            if i < p.len() {
                assert(unit_bytes(p)[2 * i + 1] == (p[i] / 256) as u8 && unit_bytes(p)[2 * i] == (
                p[i] % 256) as u8);
                assert(unit_bytes(u)[2 * i] == unit_bytes(p)[2 * i]);
                assert(unit_bytes(u)[2 * i + 1] == unit_bytes(p)[2 * i + 1]);
                assert(u[i] == p[i]);
            } else {
                assert(unit_bytes(u)[2 * i] == tail[0]);
                assert(unit_bytes(u)[2 * i + 1] == tail[1]);
            }
        }
    }
}

/// The low `n` bytes of `x`, least significant first.
fn write_le(x: u64, n: usize) -> (r: Vec<u8>)
    ensures
        r@ == le_bytes(x as nat, n as nat),
{
    let mut r: Vec<u8> = Vec::new();
    let mut rest: u64 = x;
    let mut i: usize = 0;
    assert(r@ + le_bytes(rest as nat, n as nat) =~= le_bytes(x as nat, n as nat));
    while i < n
        invariant
            i <= n,
            r@ + le_bytes(rest as nat, (n - i) as nat) == le_bytes(x as nat, n as nat),
        decreases n - i,
    {
        let ghost before = r@;
        r.push((rest % 256) as u8);
        assert(le_bytes(rest as nat, (n - i) as nat) == seq![(rest % 256) as u8] + le_bytes(
            (rest / 256) as nat,
            (n - i - 1) as nat,
        ));
        rest = rest / 256;
        i = i + 1;
        assert(r@ + le_bytes(rest as nat, (n - i) as nat) =~= before + (seq![(r@.last())]
            + le_bytes(rest as nat, (n - i) as nat)));
    }
    assert(r@ =~= r@ + le_bytes(rest as nat, 0));
    r
}

/// Appends code units as little-endian bytes.
fn push_unit_bytes(units: &[u16], out: &mut Vec<u8>)
    ensures
        final(out)@ == old(out)@ + unit_bytes(units@),
{
    let mut i: usize = 0;
    assert(units@.take(0) =~= Seq::<u16>::empty());
    assert(out@ =~= old(out)@ + unit_bytes(units@.take(0)));
    while i < units.len()
        invariant
            i <= units@.len(),
            out@ == old(out)@ + unit_bytes(units@.take(i as int)),
        decreases units@.len() - i,
    {
        let u = units[i];
        out.push((u % 256) as u8);
        out.push((u / 256) as u8);
        assert(units@.take(i as int + 1).drop_last() =~= units@.take(i as int));
        i = i + 1;
        assert(out@ =~= old(out)@ + unit_bytes(units@.take(i as int)));
    }
    assert(units@.take(units@.len() as int) =~= units@);
}

impl Data {
    /// The type tag and payload that store this value.
    pub fn encode(&self) -> (r: (u32, Vec<u8>))
        ensures
            (r.0, r.1@) == encode(self@),
            round_trips(self@) ==> decode(r.1@, r.0) == Some(self@),
    {
        match self {
            Data::Binary(b) => (REG_BINARY, vstd::slice::slice_to_vec(b.as_slice())),
            Data::DWord(x) => {
                proof {
                    reveal_with_fuel(pow256, 5);
                    lemma_le_round_trip(*x as nat, 4);
                }
                (REG_DWORD, write_le(*x as u64, 4))
            },
            Data::QWord(x) => {
                proof {
                    reveal_with_fuel(pow256, 9);
                    lemma_le_round_trip(*x as nat, 8);
                }
                (REG_QWORD, write_le(*x, 8))
            },
            Data::String(s) => {
                let mut units = encode_utf16(s.as_str());
                let ghost text = units@;
                units.push(0);
                let mut out: Vec<u8> = Vec::new();
                push_unit_bytes(units.as_slice(), &mut out);
                assert(out@ =~= unit_bytes(utf16_of(s@).push(0u16)));
                proof {
                    lemma_units_round_trip(units@);
                    assert(self@ == DataView::String(s@));
                    if round_trips(self@) {
                        assert(round_trips(DataView::String(s@)));
                        assert forall|i: int| 0 <= i < s@.len() implies s@[i] != '\0' by {
                            assert(round_trips(DataView::String(s@)));
                        }
                        assert(forall|j: int| 0 <= j < text.len() ==> text[j] != 0u16);
                        lemma_split_single(text, 0u16);
                        assert(units@.drop_last() =~= text);
                        assert(split_on(units@, 0u16)[0] == text);
                    }
                }
                (REG_SZ, out)
            },
            Data::MultiString(ss) => {
                let ghost sv = string_views(ss@);
                let mut units: Vec<u16> = Vec::new();
                let mut i: usize = 0;
                assert(sv.take(0) =~= Seq::<Seq<char>>::empty());
                while i < ss.len()
                    invariant
                        sv == string_views(ss@),
                        i <= ss@.len(),
                        units@ == multi_units(sv.take(i as int)),
                    decreases ss@.len() - i,
                {
                    let mut part = encode_utf16(ss[i].as_str());
                    part.push(0);
                    units.append(&mut part);
                    assert(sv.take(i as int + 1).drop_last() =~= sv.take(i as int));
                    assert(sv.take(i as int + 1).last() == ss@[i as int]@);
                    i = i + 1;
                    assert(units@ =~= multi_units(sv.take(i as int)));
                }
                assert(sv.take(ss@.len() as int) =~= sv);
                units.push(0);
                let mut out: Vec<u8> = Vec::new();
                push_unit_bytes(units.as_slice(), &mut out);
                assert(out@ =~= unit_bytes(multi_units(sv).push(0u16)));
                (REG_MULTI_SZ, out)
            },
        }
    }
}

/// A named, decoded value.
#[derive(Debug)]
pub struct Value {
    pub name: String,
    pub data: Data,
}

impl Value {
    /// Decodes a raw payload under the given name; `None` where the payload
    /// does not decode.
    pub fn from(name: &str, data: &[u8], kind: u32) -> (r: Option<Value>)
        ensures
            match r {
                Some(v) => v.name@ == name@ && decode(data@, kind) == Some(v.data@),
                None => decode(data@, kind) is None,
            },
    {
        match Data::from(data, kind) {
            Some(d) => Some(Value { name: name.to_owned(), data: d }),
            None => None,
        }
    }
}

/// What one read of a value's payload reported.
#[derive(Clone, Copy, Debug, PartialEq, Eq, Structural)]
pub enum ReadOutcome {
    /// The payload was read; it has this many bytes.
    Done(u32),
    /// The buffer was too small; the payload needs this many bytes.
    MoreData(u32),
    /// The read failed with this native code.
    Failed(i32),
}

/// What to do after a read of a value's payload.
#[derive(Clone, Copy, Debug, PartialEq, Eq, Structural)]
pub enum ReadStep {
    /// Keep the payload, cut to this many bytes.
    Accept(u32),
    /// Read again into a buffer of this many bytes.
    Retry(u32),
    /// Treat the value as absent.
    GiveUp,
}

/// Decides the next step of reading a value: a read that reports an undersized
/// buffer is retried once with the size it reports, and any other failure, or
/// a second undersized read, leaves the value absent.
pub fn next_read_step(retried: bool, outcome: ReadOutcome) -> (r: ReadStep)
    ensures
        r == match outcome {
            ReadOutcome::Done(n) => ReadStep::Accept(n),
            ReadOutcome::MoreData(n) => if retried {
                ReadStep::GiveUp
            } else {
                ReadStep::Retry(n)
            },
            ReadOutcome::Failed(_) => ReadStep::GiveUp,
        },
{
    match outcome {
        ReadOutcome::Done(n) => ReadStep::Accept(n),
        ReadOutcome::MoreData(n) => if retried {
            ReadStep::GiveUp
        } else {
            ReadStep::Retry(n)
        },
        ReadOutcome::Failed(_) => ReadStep::GiveUp,
    }
}

/// Drops every trailing path separator.
pub open spec fn trim_separators(s: Seq<char>) -> Seq<char>
    decreases s.len(),
{
    if s.len() > 0 && s.last() == '\\' {
        trim_separators(s.drop_last())
    } else {
        s
    }
}

/// The name of the node a path leads to: its last segment, once trailing
/// separators are dropped.
pub open spec fn name_of(path: Seq<char>) -> Seq<char> {
    split_on(trim_separators(path), '\\').last()
}

/// The last segment of a path, once trailing separators are dropped.
pub fn get_name(path: &str) -> (r: String)
    ensures
        r@ == name_of(path@),
{
    let chars = chars_of(path);
    let mut end: usize = chars.len();
    assert(chars@.take(end as int) =~= chars@);
    while end > 0 && chars[end - 1] == '\\'
        invariant
            end <= chars@.len(),
            trim_separators(chars@) == trim_separators(chars@.take(end as int)),
        decreases end,
    {
        assert(chars@.take(end as int).drop_last() =~= chars@.take(end as int - 1));
        end = end - 1;
    }
    let kept = chars.as_slice().split_at(end).0;
    assert(kept@ =~= chars@.take(end as int));
    assert(trim_separators(kept@) == kept@);
    let parts = split_chars(kept, '\\');
    proof {
        lemma_split_nonempty(kept@, '\\');
    }
    let last = parts.len() - 1;
    string_from_chars(parts[last].as_slice())
}

/// Whether two byte vectors hold the same bytes.
fn same_bytes(a: &Vec<u8>, b: &Vec<u8>) -> (r: bool)
    ensures
        r == (a@ == b@),
{
    if a.len() != b.len() {
        return false;
    }
    let mut i: usize = 0;
    while i < a.len()
        invariant
            a@.len() == b@.len(),
            i <= a@.len(),
            a@.take(i as int) == b@.take(i as int),
        decreases a@.len() - i,
    {
        if a[i] != b[i] {
            return false;
        }
        i = i + 1;
        assert(a@.take(i as int) =~= a@.take(i as int - 1).push(a@[i - 1]));
        assert(b@.take(i as int) =~= b@.take(i as int - 1).push(b@[i - 1]));
    }
    assert(a@ =~= a@.take(i as int));
    assert(b@ =~= b@.take(i as int));
    true
}

/// Whether two string vectors hold the same strings.
fn same_strings(a: &Vec<String>, b: &Vec<String>) -> (r: bool)
    ensures
        r == (string_views(a@) == string_views(b@)),
{
    if a.len() != b.len() {
        assert(string_views(a@).len() != string_views(b@).len());
        return false;
    }
    let mut i: usize = 0;
    while i < a.len()
        invariant
            a@.len() == b@.len(),
            i <= a@.len(),
            forall|k: int| 0 <= k < i ==> a@[k]@ == b@[k]@,
        decreases a@.len() - i,
    {
        if a[i] != b[i] {
            assert(string_views(a@)[i as int] != string_views(b@)[i as int]);
            return false;
        }
        i = i + 1;
    }
    assert(string_views(a@) =~= string_views(b@));
    true
}

impl PartialEq for Data {
    fn eq(&self, other: &Data) -> (r: bool) {
        match (self, other) {
            (Data::Binary(a), Data::Binary(b)) => same_bytes(a, b),
            (Data::DWord(a), Data::DWord(b)) => *a == *b,
            (Data::MultiString(a), Data::MultiString(b)) => same_strings(a, b),
            (Data::QWord(a), Data::QWord(b)) => *a == *b,
            (Data::String(a), Data::String(b)) => *a == *b,
            _ => false,
        }
    }
}

impl vstd::std_specs::cmp::PartialEqSpecImpl for Data {
    open spec fn obeys_eq_spec() -> bool {
        true
    }

    open spec fn eq_spec(&self, other: &Data) -> bool {
        self@ == other@
    }
}

/// The UTF-16 code units of a payload.
fn units_from_bytes(b: &[u8]) -> (r: Vec<u16>)
    ensures
        r@ == units_of(b@),
{
    let len = b.len();
    let n = len / 2;
    let mut r: Vec<u16> = Vec::new();
    let mut i: usize = 0;
    while i < n
        invariant
            len == b@.len(),
            n == b@.len() / 2,
            i <= n,
            r@ == units_of(b@).take(i as int),
        decreases n - i,
    {
        assert(2 * i + 1 < b@.len());
        let u = b[2 * i] as u16 + 256 * (b[2 * i + 1] as u16);
        r.push(u);
        i = i + 1;
        assert(r@ =~= units_of(b@).take(i as int));
    }
    assert(r@ =~= units_of(b@));
    r
}

/// Whether every string of a list is non-empty and holds no NUL.
pub open spec fn strings_shaped(ss: Seq<Seq<char>>) -> bool {
    forall|i: int| 0 <= i < ss.len() ==> (#[trigger] ss[i]).len() > 0 && forall|j: int|
        0 <= j < ss[i].len() ==> ss[i][j] != '\0'
}

/// Whether every run of a list is non-empty and holds no NUL.
pub open spec fn units_shaped(ps: Seq<Seq<u16>>) -> bool {
    forall|i: int| 0 <= i < ps.len() ==> (#[trigger] ps[i]).len() > 0 && forall|j: int|
        0 <= j < ps[i].len() ==> ps[i][j] != 0u16
}

/// The runs that a list of strings decodes from are non-empty and hold no NUL.
pub proof fn lemma_segments_shaped(u: Seq<u16>)
    ensures
        units_shaped(segments(u)),
{
    lemma_split_pieces_free(u, 0u16);
    lemma_filter_shaped(split_on(u, 0u16));
}

proof fn lemma_filter_shaped(ps: Seq<Seq<u16>>)
    requires
        forall|i: int, j: int| 0 <= i < ps.len() && 0 <= j < ps[i].len() ==> #[trigger] ps[i][j] != 0u16,
    ensures
        units_shaped(ps.filter(|s: Seq<u16>| s.len() > 0)),
    decreases ps.len(),
{
    reveal(Seq::filter);
    if ps.len() > 0 {
        let rest = ps.drop_last();
        assert forall|i: int, j: int| 0 <= i < rest.len() && 0 <= j < rest[i].len() implies #[trigger] rest[i][j] != 0u16 by {
            assert(rest[i] == ps[i]);
        }
        lemma_filter_shaped(rest);
        let last = ps.last();
        assert forall|j: int| 0 <= j < last.len() implies last[j] != 0u16 by {
            assert(ps[ps.len() - 1][j] != 0u16);
        }
    }
}

/// Decodes each non-empty run of a NUL-separated list.
fn decode_segments(parts: &Vec<Vec<u16>>) -> (r: Vec<String>)
    requires
        forall|i: int, j: int|
            0 <= i < parts@.len() && 0 <= j < parts@[i]@.len() ==> #[trigger] parts@[i]@[j] != 0u16,
    ensures
        string_views(r@) == unit_views(parts@).filter(|s: Seq<u16>| s.len() > 0).map_values(
            |s: Seq<u16>| utf16_lossy(s),
        ),
        strings_shaped(string_views(r@)),
{
    let ghost pv = unit_views(parts@);
    let mut r: Vec<String> = Vec::new();
    let mut i: usize = 0;
    proof {
        reveal(Seq::filter);
    }
    assert(pv.take(0).filter(|s: Seq<u16>| s.len() > 0) =~= Seq::<Seq<u16>>::empty());
    while i < parts.len()
        invariant
            pv == unit_views(parts@),
            i <= parts@.len(),
            string_views(r@) == pv.take(i as int).filter(|s: Seq<u16>| s.len() > 0).map_values(
                |s: Seq<u16>| utf16_lossy(s),
            ),
            strings_shaped(string_views(r@)),
            forall|i: int, j: int|
                0 <= i < parts@.len() && 0 <= j < parts@[i]@.len() ==> #[trigger] parts@[i]@[j]
                    != 0u16,
        decreases parts@.len() - i,
    {
        assert(pv.take(i as int + 1).drop_last() =~= pv.take(i as int));
        assert(pv.take(i as int + 1).last() == parts@[i as int]@);
        proof {
            reveal(Seq::filter);
        }
        if parts[i].len() > 0 {
            assert(forall|k: int| 0 <= k < parts[i as int]@.len() ==> parts@[i as int]@[k] != 0u16);
            let text = from_utf16_lossy(parts[i].as_slice());
            let ghost before = string_views(r@);
            r.push(text);
            assert(string_views(r@) =~= before.push(text@));
            assert(string_views(r@) =~= pv.take(i as int + 1).filter(|s: Seq<u16>| s.len() > 0).map_values(
                |s: Seq<u16>| utf16_lossy(s),
            ));
        }
        i = i + 1;
    }
    assert(pv.take(parts@.len() as int) =~= pv);
    r
}

impl Data {
    /// Decodes a raw payload with its type tag. Integers are read
    /// little-endian; strings are NUL-terminated UTF-16, read lossily; a list of
    /// strings keeps its non-empty entries. An unknown tag, or an integer
    /// payload of the wrong length, gives `None`.
    pub fn from(data: &[u8], kind: u32) -> (r: Option<Data>)
        ensures
            match r {
                Some(d) => decode(data@, kind) == Some(d@),
                None => decode(data@, kind) is None,
            },
            (kind == REG_SZ || kind == REG_EXPAND_SZ) && (data@.len() < 2 || units_of(data@)[0]
                == 0u16) ==> r is Some && r->0@ == DataView::String(Seq::empty()),
            match r {
                Some(Data::MultiString(v)) => strings_shaped(string_views(v@)),
                _ => true,
            },
    {
        if kind == REG_BINARY {
            Some(Data::Binary(vstd::slice::slice_to_vec(data)))
        } else if kind == REG_DWORD {
            if data.len() == 4 {
                proof {
                    lemma_le_value_bound(data@);
                    reveal_with_fuel(pow256, 5);
                }
                Some(Data::DWord(read_le(data) as u32))
            } else {
                None
            }
        } else if kind == REG_QWORD {
            if data.len() == 8 {
                Some(Data::QWord(read_le(data)))
            } else {
                None
            }
        } else if kind == REG_SZ || kind == REG_EXPAND_SZ {
            let units = units_from_bytes(data);
            let parts = split_units(units.as_slice());
            proof {
                lemma_split_nonempty(units@, 0u16);
            }
            assert(parts@[0]@ == split_on(units@, 0u16)[0]);
            proof {
                if units@.len() == 0 || units@[0] == 0u16 {
                    lemma_split_first_empty(units@, 0u16);
                }
            }
            let text = from_utf16_lossy(parts[0].as_slice());
            proof {
                if text@.len() == 0 {
                    assert(text@ =~= Seq::<char>::empty());
                }
            }
            Some(Data::String(text))
        } else if kind == REG_MULTI_SZ {
            let units = units_from_bytes(data);
            let parts = split_units(units.as_slice());
            proof {
                lemma_split_pieces_free(units@, 0u16);
                assert forall|i: int, j: int|
                    0 <= i < parts@.len() && 0 <= j < parts@[i]@.len() implies #[trigger] parts@[i]@[j]
                        != 0u16 by {
                    assert(parts@[i]@ == unit_views(parts@)[i]);
                }
            }
            Some(Data::MultiString(decode_segments(&parts)))
        } else {
            None
        }
    }
}

} // verus!
