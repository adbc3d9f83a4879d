//! Byte strings: searching for a byte, equality, and the lexicographic order.

use vstd::prelude::*;

verus! {

/// The line feed that ends a line.
pub const LINE_FEED: u8 = 10;

/// The carriage return that may stand before a line feed.
pub const CARRIAGE_RETURN: u8 = 13;

/// The space after the comma between two entries of a report.
pub const SPACE: u8 = 32;

/// The plus sign.
pub const PLUS: u8 = 43;

/// The comma between two entries of a report.
pub const COMMA: u8 = 44;

/// The minus sign.
pub const MINUS: u8 = 45;

/// The decimal point.
pub const POINT: u8 = 46;

/// The stroke between the numbers of an entry.
pub const SLASH: u8 = 47;

/// The digit zero; the other digits follow it in order.
pub const DIGIT_ZERO: u8 = 48;

/// The digit nine.
pub const DIGIT_NINE: u8 = 57;

/// The separator between name and value.
pub const SEMICOLON: u8 = 59;

/// The sign between a name and its numbers in a report.
pub const EQUALS: u8 = 61;

/// The brace that opens a report.
pub const OPEN_BRACE: u8 = 123;

/// The brace that closes a report.
pub const CLOSE_BRACE: u8 = 125;

/// The position of the first `byte` in `s` at or after `from`, or `s.len()`
/// when there is none.
pub open spec fn first_index_from(s: Seq<u8>, byte: u8, from: int) -> int
    decreases s.len() - from,
{
    if from < 0 || from >= s.len() {
        s.len() as int
    } else if s[from] == byte {
        from
    } else {
        first_index_from(s, byte, from + 1)
    }
}

/// The position of the first `byte` in `s`, or `s.len()` when there is none.
pub open spec fn first_index(s: Seq<u8>, byte: u8) -> int {
    first_index_from(s, byte, 0)
}

/// `first_index_from` lies between `from` and the end, no `byte` stands
/// before it, and it holds `byte` unless it is the end.
pub proof fn lemma_first_index_from(s: Seq<u8>, byte: u8, from: int)
    requires
        0 <= from <= s.len(),
    ensures
        from <= first_index_from(s, byte, from) <= s.len(),
        forall|j: int| from <= j < first_index_from(s, byte, from) ==> s[j] != byte,
        first_index_from(s, byte, from) < s.len() ==> s[first_index_from(s, byte, from)] == byte,
    decreases s.len() - from,
{
    if from < s.len() && s[from] != byte {
        lemma_first_index_from(s, byte, from + 1);
    }
}

/// A position that holds `byte` and has no `byte` between `from` and itself
/// is the first one.
pub proof fn lemma_first_index_from_unique(s: Seq<u8>, byte: u8, from: int, at: int)
    requires
        0 <= from <= at <= s.len(),
        forall|j: int| from <= j < at ==> s[j] != byte,
        at < s.len() ==> s[at] == byte,
    ensures
        first_index_from(s, byte, from) == at,
    decreases at - from,
{
    if from < at {
        lemma_first_index_from_unique(s, byte, from + 1, at);
    }
}

/// Finds the first `byte` in `s` at or after `from`.
pub fn find_from(s: &[u8], byte: u8, from: usize) -> (at: usize)
    requires
        from <= s@.len(),
    ensures
        at == first_index_from(s@, byte, from as int),
        from <= at <= s@.len(),
{
    let mut i: usize = from;
    while i < s.len() && s[i] != byte
        invariant
            from <= i <= s@.len(),
            forall|j: int| from <= j < i ==> s@[j] != byte,
        decreases s@.len() - i,
    {
        i += 1;
    }
    proof {
        lemma_first_index_from_unique(s@, byte, from as int, i as int);
    }
    i
}

/// Whether two byte strings are the same.
pub fn same_bytes(a: &[u8], b: &[u8]) -> (same: bool)
    ensures
        same == (a@ == b@),
{
    if a.len() != b.len() {
        return false;
    }
    let mut i: usize = 0;
    while i < a.len()
        invariant
            a@.len() == b@.len(),
            i <= a@.len(),
            forall|j: int| 0 <= j < i ==> a@[j] == b@[j],
        decreases a@.len() - i,
    {
        if a[i] != b[i] {
            return false;
        }
        i += 1;
    }
    assert(a@ =~= b@);
    true
}

/// Copies a byte string into a vector of its own.
pub fn to_owned_bytes(s: &[u8]) -> (v: Vec<u8>)
    ensures
        v@ == s@,
{
    let mut v: Vec<u8> = Vec::new();
    let mut i: usize = 0;
    while i < s.len()
        invariant
            i <= s@.len(),
            v@ == s@.subrange(0, i as int),
        decreases s@.len() - i,
    {
        v.push(s[i]);
        i += 1;
    }
    v
}

/// Appends a byte string to a vector.
pub fn append_bytes(out: &mut Vec<u8>, s: &[u8])
    ensures
        final(out)@ == old(out)@ + s@,
{
    let mut i: usize = 0;
    while i < s.len()
        invariant
            i <= s@.len(),
            out@ == old(out)@ + s@.subrange(0, i as int),
        decreases s@.len() - i,
    {
        out.push(s[i]);
        i += 1;
    }
}

/// Whether `a` comes before `b` in the lexicographic order on bytes, looking
/// only at positions `from` and later.
pub open spec fn precedes_from(a: Seq<u8>, b: Seq<u8>, from: int) -> bool
    decreases a.len() - from,
{
    if from < 0 || from >= b.len() {
        false
    } else if from >= a.len() {
        true
    } else if a[from] != b[from] {
        a[from] < b[from]
    } else {
        precedes_from(a, b, from + 1)
    }
}

/// Whether `a` comes strictly before `b` in the lexicographic order on
/// bytes: at the first position where they differ `a` holds the smaller
/// byte, or `a` is a proper prefix of `b`.
pub open spec fn precedes(a: Seq<u8>, b: Seq<u8>) -> bool {
    precedes_from(a, b, 0)
}

proof fn lemma_precedes_from_asymmetric(a: Seq<u8>, b: Seq<u8>, from: int)
    requires
        0 <= from,
        precedes_from(a, b, from),
    ensures
        !precedes_from(b, a, from),
    decreases a.len() - from,
{
    if from < a.len() && from < b.len() && a[from] == b[from] {
        lemma_precedes_from_asymmetric(a, b, from + 1);
    }
}

proof fn lemma_precedes_from_transitive(a: Seq<u8>, b: Seq<u8>, c: Seq<u8>, from: int)
    requires
        0 <= from,
        precedes_from(a, b, from),
        precedes_from(b, c, from),
    ensures
        precedes_from(a, c, from),
    decreases a.len() - from,
{
    if from < a.len() && from < c.len() && a[from] == b[from] && b[from] == c[from] {
        lemma_precedes_from_transitive(a, b, c, from + 1);
    }
}

proof fn lemma_precedes_from_total(a: Seq<u8>, b: Seq<u8>, from: int)
    requires
        0 <= from <= a.len(),
        from <= b.len(),
        forall|j: int| 0 <= j < from ==> a[j] == b[j],
        a != b,
    ensures
        precedes_from(a, b, from) || precedes_from(b, a, from),
    decreases a.len() - from,
{
    if from < a.len() && from < b.len() {
        if a[from] == b[from] {
            lemma_precedes_from_total(a, b, from + 1);
        }
    } else if from == a.len() && from == b.len() {
        assert(a =~= b);
    }
}

/// No byte string precedes itself, and two strings never precede each other.
pub proof fn lemma_precedes_asymmetric(a: Seq<u8>, b: Seq<u8>)
    requires
        precedes(a, b),
    ensures
        !precedes(b, a),
        a != b,
{
    lemma_precedes_from_asymmetric(a, b, 0);
}

/// The order is transitive.
pub proof fn lemma_precedes_transitive(a: Seq<u8>, b: Seq<u8>, c: Seq<u8>)
    requires
        precedes(a, b),
        precedes(b, c),
    ensures
        precedes(a, c),
{
    lemma_precedes_from_transitive(a, b, c, 0);
}

/// The order is total: of two different strings one precedes the other.
pub proof fn lemma_precedes_total(a: Seq<u8>, b: Seq<u8>)
    requires
        a != b,
    ensures
        precedes(a, b) || precedes(b, a),
{
    lemma_precedes_from_total(a, b, 0);
}

/// Whether `a` comes strictly before `b` in the lexicographic order on bytes.
pub fn comes_before(a: &[u8], b: &[u8]) -> (before: bool)
    ensures
        before == precedes(a@, b@),
{
    let mut i: usize = 0;
    while i < a.len() && i < b.len()
        invariant
            i <= a@.len(),
            i <= b@.len(),
            precedes(a@, b@) == precedes_from(a@, b@, i as int),
        decreases a@.len() - i,
    {
        if a[i] != b[i] {
            return a[i] < b[i];
        }
        i += 1;
    }
    i < b.len()
}

} // verus!
