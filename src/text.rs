use vstd::prelude::*;

verus! {

/// What `str::to_uppercase` returns for a string.
pub uninterp spec fn upper_of(s: Seq<char>) -> Seq<char>;

/// What `str::to_lowercase` returns for a string.
pub uninterp spec fn lower_of(s: Seq<char>) -> Seq<char>;

/// What `String::from_utf16_lossy` returns for a sequence of UTF-16 code units.
pub uninterp spec fn utf16_lossy(units: Seq<u16>) -> Seq<char>;

/// What `str::encode_utf16` yields for a string.
pub uninterp spec fn utf16_of(s: Seq<char>) -> Seq<u16>;

/// Relies on `str::to_uppercase`: the result depends on the characters alone.
#[verifier::external_body]
pub(crate) fn to_upper(s: &str) -> (r: String)
    ensures
        r@ == upper_of(s@),
{
    s.to_uppercase()
}

/// Relies on `str::to_lowercase`: the result depends on the characters alone.
#[verifier::external_body]
pub(crate) fn to_lower(s: &str) -> (r: String)
    ensures
        r@ == lower_of(s@),
{
    s.to_lowercase()
}

/// Relies on `String::from_utf16_lossy`: the result depends on the code units
/// alone. Each code unit decodes to a character or to U+FFFD, a surrogate pair
/// to one character, and only the unit 0 decodes to NUL: so no units give the
/// empty string, some units a string that is not empty, and units without 0 a
/// string without NUL.
#[verifier::external_body]
pub(crate) fn from_utf16_lossy(units: &[u16]) -> (r: String)
    ensures
        r@ == utf16_lossy(units@),
        units@.len() == 0 ==> r@.len() == 0,
        units@.len() > 0 ==> r@.len() > 0,
        (forall|i: int| 0 <= i < units@.len() ==> units@[i] != 0u16) ==> (forall|j: int|
            0 <= j < r@.len() ==> r@[j] != '\0'),
{
    String::from_utf16_lossy(units)
}

/// Relies on `str::encode_utf16`: the code units depend on the characters alone,
/// and the empty string has none. The units are valid UTF-16, so decoding them
/// gives the string back; only the character NUL encodes to the unit 0.
#[verifier::external_body]
pub(crate) fn encode_utf16(s: &str) -> (r: Vec<u16>)
    ensures
        r@ == utf16_of(s@),
        s@.len() == 0 ==> r@.len() == 0,
        utf16_lossy(r@) == s@,
        (forall|i: int| 0 <= i < s@.len() ==> s@[i] != '\0') ==> (forall|j: int|
            0 <= j < r@.len() ==> r@[j] != 0u16),
{
    s.encode_utf16().collect()
}

/// Relies on `String: FromIterator<char>`: the string holds the characters in order.
#[verifier::external_body]
pub(crate) fn string_from_chars(chars: &[char]) -> (r: String)
    ensures
        r@ == chars@,
{
    chars.iter().collect()
}

/// Relies on `<String as Hash>::hash`, which feeds the string to the hasher;
/// nothing is promised of the hasher's state.
pub assume_specification<H: core::hash::Hasher>[ <std::string::String as core::hash::Hash>::hash::<H> ](
    s: &std::string::String,
    state: &mut H,
);

/// The characters of a string, in order.
pub fn chars_of(s: &str) -> (r: Vec<char>)
    ensures
        r@ == s@,
{
    let n = s.unicode_len();
    let mut r: Vec<char> = Vec::new();
    let mut i: usize = 0;
    while i < n
        invariant
            n == s@.len(),
            i <= n,
            r@ == s@.take(i as int),
        decreases n - i,
    {
        r.push(s.get_char(i));
        i = i + 1;
        assert(r@ =~= s@.take(i as int));
    }
    assert(r@ =~= s@);
    r
}

/// The pieces of `s` between occurrences of `sep`, as `str::split` yields them:
/// there is always at least one piece, and a separator at either end leaves an
/// empty piece there.
pub open spec fn split_on<A>(s: Seq<A>, sep: A) -> Seq<Seq<A>>
    decreases s.len(),
{
    if s.len() == 0 {
        seq![Seq::empty()]
    } else {
        let parts = split_on(s.drop_last(), sep);
        if s.last() == sep {
            parts.push(Seq::empty())
        } else {
            parts.update(parts.len() - 1, parts.last().push(s.last()))
        }
    }
}

/// Splitting always yields at least one piece.
pub proof fn lemma_split_nonempty<A>(s: Seq<A>, sep: A)
    ensures
        split_on(s, sep).len() >= 1,
    decreases s.len(),
{
    if s.len() > 0 {
        lemma_split_nonempty(s.drop_last(), sep);
    }
}

/// The unit sequences that a list of unit vectors holds.
pub open spec fn unit_views(v: Seq<Vec<u16>>) -> Seq<Seq<u16>> {
    v.map_values(|p: Vec<u16>| p@)
}

/// Splits a run of UTF-16 code units at each NUL.
pub fn split_units(s: &[u16]) -> (r: Vec<Vec<u16>>)
    ensures
        unit_views(r@) == split_on(s@, 0u16),
{
    let mut parts: Vec<Vec<u16>> = Vec::new();
    let mut current: Vec<u16> = Vec::new();
    let mut i: usize = 0;
    assert(s@.take(0) =~= Seq::<u16>::empty());
    assert(unit_views(parts@).push(current@) =~= split_on(s@.take(0), 0u16));
    while i < s.len()
        invariant
            i <= s@.len(),
            unit_views(parts@).push(current@) == split_on(s@.take(i as int), 0u16),
        decreases s@.len() - i,
    {
        let c = s[i];
        let ghost before = s@.take(i as int);
        assert(s@.take(i as int + 1).drop_last() =~= before);
        proof {
            lemma_split_nonempty(before, 0u16);
        }
        if c == 0 {
            let done = current;
            let ghost dv = unit_views(parts@);
            let ghost dw = done@;
            parts.push(done);
            assert(unit_views(parts@) =~= dv.push(dw));
            current = Vec::new();
            assert(unit_views(parts@).push(current@) =~= split_on(s@.take(i as int + 1), 0u16));
        } else {
            current.push(c);
            assert(unit_views(parts@).push(current@) =~= split_on(s@.take(i as int + 1), 0u16));
        }
        i = i + 1;
    }
    assert(s@.take(s@.len() as int) =~= s@);
    let ghost dv = unit_views(parts@);
    let ghost cw = current@;
    parts.push(current);
    assert(unit_views(parts@) =~= dv.push(cw));
    parts
}

/// The character sequences that a list of character vectors holds.
pub open spec fn views(v: Seq<Vec<char>>) -> Seq<Seq<char>> {
    v.map_values(|p: Vec<char>| p@)
}

/// No piece holds the separator.
pub proof fn lemma_split_pieces_free<A>(s: Seq<A>, sep: A)
    ensures
        forall|i: int, j: int|
            0 <= i < split_on(s, sep).len() && 0 <= j < split_on(s, sep)[i].len() ==> #[trigger] split_on(
                s,
                sep,
            )[i][j] != sep,
    decreases s.len(),
{
    if s.len() > 0 {
        lemma_split_pieces_free(s.drop_last(), sep);
        lemma_split_nonempty(s.drop_last(), sep);
        let parts = split_on(s.drop_last(), sep);
        let r = split_on(s, sep);
        assert forall|i: int, j: int| 0 <= i < r.len() && 0 <= j < r[i].len() implies #[trigger] r[i][j]
            != sep by {
            if s.last() == sep {
                if i < parts.len() {
                    assert(r[i] == parts[i]);
                }
            } else {
                if i < parts.len() - 1 {
                    assert(r[i] == parts[i]);
                } else {
                    assert(r[i] == parts.last().push(s.last()));
                    if j < parts.last().len() {
                        assert(parts[parts.len() - 1][j] != sep);
                    }
                }
            }
        }
    }
}

/// A text without the separator is a single piece.
pub proof fn lemma_split_single<A>(x: Seq<A>, sep: A)
    requires
        forall|i: int| 0 <= i < x.len() ==> x[i] != sep,
    ensures
        split_on(x, sep) == seq![x],
    decreases x.len(),
{
    if x.len() > 0 {
        lemma_split_single(x.drop_last(), sep);
        assert(x.drop_last().push(x.last()) =~= x);
        assert(seq![x.drop_last()].update(0, x) =~= seq![x]);
    } else {
        assert(x =~= Seq::<A>::empty());
    }
}

/// A text that is empty or starts with the separator has an empty first piece.
pub proof fn lemma_split_first_empty<A>(s: Seq<A>, sep: A)
    requires
        s.len() == 0 || s[0] == sep,
    ensures
        split_on(s, sep)[0].len() == 0,
        s.len() > 0 ==> split_on(s, sep).len() >= 2,
    decreases s.len(),
{
    if s.len() > 1 {
        assert(s.drop_last()[0] == s[0]);
        lemma_split_first_empty(s.drop_last(), sep);
        let parts = split_on(s.drop_last(), sep);
        if s.last() == sep {
            assert(split_on(s, sep)[0] == parts[0]);
        } else {
            assert(split_on(s, sep)[0] == parts[0]);
        }
    } else if s.len() == 1 {
        assert(s.drop_last() =~= Seq::<A>::empty());
        assert(s.last() == sep);
        assert(split_on(s.drop_last(), sep) == seq![Seq::<A>::empty()]);
        assert(split_on(s, sep) == split_on(s.drop_last(), sep).push(Seq::<A>::empty()));
    }
}

/// Splits `s` at each `sep`.
pub fn split_chars(s: &[char], sep: char) -> (r: Vec<Vec<char>>)
    ensures
        views(r@) == split_on(s@, sep),
{
    let mut parts: Vec<Vec<char>> = Vec::new();
    let mut current: Vec<char> = Vec::new();
    let mut i: usize = 0;
    assert(s@.take(0) =~= Seq::<char>::empty());
    assert(views(parts@).push(current@) =~= split_on(s@.take(0), sep));
    while i < s.len()
        invariant
            i <= s@.len(),
            views(parts@).push(current@) == split_on(s@.take(i as int), sep),
        decreases s@.len() - i,
    {
        let c = s[i];
        let ghost before = s@.take(i as int);
        assert(s@.take(i as int + 1).drop_last() =~= before);
        proof {
            lemma_split_nonempty(before, sep);
        }
        if c == sep {
            let done = current;
            let ghost dv = views(parts@);
            let ghost dw = done@;
            parts.push(done);
            assert(views(parts@) =~= dv.push(dw));
            current = Vec::new();
            assert(views(parts@).push(current@) =~= split_on(s@.take(i as int + 1), sep));
        } else {
            current.push(c);
            assert(views(parts@).push(current@) =~= split_on(s@.take(i as int + 1), sep));
        }
        i = i + 1;
    }
    assert(s@.take(s@.len() as int) =~= s@);
    let ghost dv = views(parts@);
    let ghost cw = current@;
    parts.push(current);
    assert(views(parts@) =~= dv.push(cw));
    assert(views(parts@) =~= split_on(s@, sep));
    parts
}

} // verus!
