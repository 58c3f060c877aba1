//! The composite field comparator: lines are ordered by an ordered list of
//! field rules, the first rule that distinguishes two lines deciding the
//! comparison.

use vstd::prelude::*;
use core::cmp::Ordering;

verus! {

/// A single comparison rule of the sort key. `WholeLine` compares entire
/// lines; the slice rules compare the half-open byte range `[start, end)`.
/// A `DateSlice` additionally treats an all-space slice as a sentinel that
/// sorts after every non-blank slice.
#[derive(Clone, Copy, Debug, PartialEq, Eq, Structural)]
pub enum FieldRule {
    WholeLine,
    LexicographicSlice { start: usize, end: usize },
    DateSlice { start: usize, end: usize },
}

/// The byte value of an ASCII space, the blank-date sentinel byte.
pub const SPACE: u8 = 32;

/// Reverse of an ordering, for stating antisymmetry of the comparators.
pub open spec fn flip_ord(o: Ordering) -> Ordering {
    match o {
        Ordering::Less => Ordering::Greater,
        Ordering::Equal => Ordering::Equal,
        Ordering::Greater => Ordering::Less,
    }
}

/// Byte-wise lexicographic comparison of two byte sequences: the first
/// differing byte decides; a proper prefix sorts before its extension.
pub open spec fn spec_cmp_bytes(a: Seq<u8>, b: Seq<u8>) -> Ordering
    decreases a.len(),
{
    if a.len() == 0 && b.len() == 0 {
        Ordering::Equal
    } else if a.len() == 0 {
        Ordering::Less
    } else if b.len() == 0 {
        Ordering::Greater
    } else if a[0] < b[0] {
        Ordering::Less
    } else if a[0] > b[0] {
        Ordering::Greater
    } else {
        spec_cmp_bytes(a.drop_first(), b.drop_first())
    }
}

/// A blank value: every byte is a space.
pub open spec fn spec_is_blank(s: Seq<u8>) -> bool {
    forall|i: int| 0 <= i < s.len() ==> s[i] == SPACE
}

/// Date comparison: two blank values are equal, a blank value sorts after
/// any non-blank value, and two non-blank values compare lexicographically.
pub open spec fn spec_cmp_dates(a: Seq<u8>, b: Seq<u8>) -> Ordering {
    if spec_is_blank(a) && spec_is_blank(b) {
        Ordering::Equal
    } else if spec_is_blank(a) {
        Ordering::Greater
    } else if spec_is_blank(b) {
        Ordering::Less
    } else {
        spec_cmp_bytes(a, b)
    }
}

/// Whether a rule's byte range lies within a line of the given length.
pub open spec fn rule_fits(line: Seq<u8>, r: FieldRule) -> bool {
    match r {
        FieldRule::WholeLine => true,
        FieldRule::LexicographicSlice { start, end } => start <= end && end <= line.len(),
        FieldRule::DateSlice { start, end } => start <= end && end <= line.len(),
    }
}

/// Whether every rule of a key lies within a line.
pub open spec fn key_fits(line: Seq<u8>, key: Seq<FieldRule>) -> bool {
    forall|i: int| 0 <= i < key.len() ==> rule_fits(line, #[trigger] key[i])
}

/// Comparison of two lines under one rule.
pub open spec fn rule_cmp(a: Seq<u8>, b: Seq<u8>, r: FieldRule) -> Ordering {
    match r {
        FieldRule::WholeLine => spec_cmp_bytes(a, b),
        FieldRule::LexicographicSlice { start, end } => spec_cmp_bytes(
            a.subrange(start as int, end as int),
            b.subrange(start as int, end as int),
        ),
        FieldRule::DateSlice { start, end } => spec_cmp_dates(
            a.subrange(start as int, end as int),
            b.subrange(start as int, end as int),
        ),
    }
}

/// Composite comparison: rules are tried in order and the first rule that
/// does not compare equal decides; an empty key compares everything equal.
pub open spec fn key_cmp(a: Seq<u8>, b: Seq<u8>, key: Seq<FieldRule>) -> Ordering
    decreases key.len(),
{
    if key.len() == 0 {
        Ordering::Equal
    } else if rule_cmp(a, b, key[0]) == Ordering::Equal {
        key_cmp(a, b, key.drop_first())
    } else {
        rule_cmp(a, b, key[0])
    }
}

/// The non-strict order induced by the composite comparator.
pub open spec fn line_le(a: Seq<u8>, b: Seq<u8>, key: Seq<FieldRule>) -> bool {
    key_cmp(a, b, key) != Ordering::Greater
}

/// A sequence of lines is sorted when every pair is ordered by the key.
pub open spec fn sorted_lines(s: Seq<Seq<u8>>, key: Seq<FieldRule>) -> bool {
    forall|i: int, j: int| 0 <= i < j < s.len() ==> line_le(#[trigger] s[i], #[trigger] s[j], key)
}

/// Whether every rule of a key lies within every line of a sequence.
pub open spec fn all_fit(s: Seq<Seq<u8>>, key: Seq<FieldRule>) -> bool {
    forall|i: int| 0 <= i < s.len() ==> key_fits(#[trigger] s[i], key)
}

/// Checks at run time that every rule of the key lies within the line.
pub fn line_fits(line: &Vec<u8>, key: &Vec<FieldRule>) -> (r: bool)
    ensures
        r == key_fits(line@, key@),
{
    let mut i: usize = 0;
    while i < key.len()
        invariant
            i <= key@.len(),
            forall|q: int| 0 <= q < i ==> rule_fits(line@, #[trigger] key@[q]),
        decreases key@.len() - i,
    {
        let ok = match key[i] {
            FieldRule::WholeLine => true,
            FieldRule::LexicographicSlice { start, end } => start <= end && end <= line.len(),
            FieldRule::DateSlice { start, end } => start <= end && end <= line.len(),
        };
        if !ok {
            proof {
                assert(!rule_fits(line@, key@[i as int]));
            }
            return false;
        }
        i = i + 1;
    }
    true
}

/// Byte comparison equals `Equal` exactly on equal sequences.
pub proof fn lemma_cmp_bytes_eq(a: Seq<u8>, b: Seq<u8>)
    ensures
        (spec_cmp_bytes(a, b) == Ordering::Equal) <==> a == b,
    decreases a.len(),
{
    if a.len() == 0 && b.len() == 0 {
        assert(a =~= b);
    } else if a.len() == 0 || b.len() == 0 {
    } else if a[0] == b[0] {
        lemma_cmp_bytes_eq(a.drop_first(), b.drop_first());
        if a.drop_first() == b.drop_first() {
            assert forall|i: int| 0 <= i < a.len() implies a[i] == b[i] by {
                if i > 0 {
                    assert(a[i] == a.drop_first()[i - 1]);
                    assert(b[i] == b.drop_first()[i - 1]);
                }
            }
            assert(a =~= b);
        }
        if a == b {
            assert(a.drop_first() =~= b.drop_first());
        }
    }
}

/// Byte comparison is antisymmetric: swapping the arguments reverses it.
pub proof fn lemma_cmp_bytes_flip(a: Seq<u8>, b: Seq<u8>)
    ensures
        spec_cmp_bytes(b, a) == flip_ord(spec_cmp_bytes(a, b)),
    decreases a.len(),
{
    if a.len() != 0 && b.len() != 0 && a[0] == b[0] {
        lemma_cmp_bytes_flip(a.drop_first(), b.drop_first());
    }
}

/// Transitivity facts for byte comparison.
pub proof fn lemma_cmp_bytes_trans(a: Seq<u8>, b: Seq<u8>, c: Seq<u8>)
    ensures
        spec_cmp_bytes(a, b) == Ordering::Less && spec_cmp_bytes(b, c) == Ordering::Less
            ==> spec_cmp_bytes(a, c) == Ordering::Less,
    decreases a.len(),
{
    if spec_cmp_bytes(a, b) == Ordering::Less && spec_cmp_bytes(b, c) == Ordering::Less {
        if a.len() == 0 {
        } else if a[0] == b[0] && b[0] == c[0] {
            lemma_cmp_bytes_trans(a.drop_first(), b.drop_first(), c.drop_first());
        }
    }
}

/// Date comparison is antisymmetric.
pub proof fn lemma_cmp_dates_flip(a: Seq<u8>, b: Seq<u8>)
    ensures
        spec_cmp_dates(b, a) == flip_ord(spec_cmp_dates(a, b)),
{
    lemma_cmp_bytes_flip(a, b);
}

/// Transitivity facts for date comparison: strict order composes, and an
/// equal pair can be substituted on either side.
pub proof fn lemma_cmp_dates_trans(a: Seq<u8>, b: Seq<u8>, c: Seq<u8>)
    ensures
        spec_cmp_dates(a, b) == Ordering::Less && spec_cmp_dates(b, c) == Ordering::Less
            ==> spec_cmp_dates(a, c) == Ordering::Less,
        spec_cmp_dates(a, b) == Ordering::Equal && spec_cmp_dates(b, c) == Ordering::Equal
            ==> spec_cmp_dates(a, c) == Ordering::Equal,
        spec_cmp_dates(a, b) == Ordering::Equal && spec_cmp_dates(b, c) == Ordering::Less
            ==> spec_cmp_dates(a, c) == Ordering::Less,
        spec_cmp_dates(a, b) == Ordering::Less && spec_cmp_dates(b, c) == Ordering::Equal
            ==> spec_cmp_dates(a, c) == Ordering::Less,
{
    lemma_cmp_bytes_eq(a, b);
    lemma_cmp_bytes_eq(b, c);
    lemma_cmp_bytes_eq(a, c);
    lemma_cmp_bytes_trans(a, b, c);
}

/// Rule comparison is antisymmetric.
pub proof fn lemma_rule_cmp_flip(a: Seq<u8>, b: Seq<u8>, r: FieldRule)
    ensures
        rule_cmp(b, a, r) == flip_ord(rule_cmp(a, b, r)),
{
    match r {
        FieldRule::WholeLine => lemma_cmp_bytes_flip(a, b),
        FieldRule::LexicographicSlice { start, end } => lemma_cmp_bytes_flip(
            a.subrange(start as int, end as int),
            b.subrange(start as int, end as int),
        ),
        FieldRule::DateSlice { start, end } => lemma_cmp_dates_flip(
            a.subrange(start as int, end as int),
            b.subrange(start as int, end as int),
        ),
    }
}

/// Transitivity facts for a single rule.
pub proof fn lemma_rule_cmp_trans(a: Seq<u8>, b: Seq<u8>, c: Seq<u8>, r: FieldRule)
    ensures
        rule_cmp(a, b, r) == Ordering::Less && rule_cmp(b, c, r) == Ordering::Less ==> rule_cmp(
            a,
            c,
            r,
        ) == Ordering::Less,
        rule_cmp(a, b, r) == Ordering::Equal && rule_cmp(b, c, r) == Ordering::Equal ==> rule_cmp(
            a,
            c,
            r,
        ) == Ordering::Equal,
        rule_cmp(a, b, r) == Ordering::Equal && rule_cmp(b, c, r) == Ordering::Less ==> rule_cmp(
            a,
            c,
            r,
        ) == Ordering::Less,
        rule_cmp(a, b, r) == Ordering::Less && rule_cmp(b, c, r) == Ordering::Equal ==> rule_cmp(
            a,
            c,
            r,
        ) == Ordering::Less,
{
    match r {
        FieldRule::WholeLine => {
            lemma_cmp_bytes_eq(a, b);
            lemma_cmp_bytes_eq(b, c);
            lemma_cmp_bytes_trans(a, b, c);
        },
        FieldRule::LexicographicSlice { start, end } => {
            let sa = a.subrange(start as int, end as int);
            let sb = b.subrange(start as int, end as int);
            let sc = c.subrange(start as int, end as int);
            lemma_cmp_bytes_eq(sa, sb);
            lemma_cmp_bytes_eq(sb, sc);
            lemma_cmp_bytes_trans(sa, sb, sc);
        },
        FieldRule::DateSlice { start, end } => {
            let sa = a.subrange(start as int, end as int);
            let sb = b.subrange(start as int, end as int);
            let sc = c.subrange(start as int, end as int);
            lemma_cmp_dates_trans(sa, sb, sc);
        },
    }
}

/// Every rule compares a line equal to itself.
pub proof fn lemma_rule_cmp_refl(a: Seq<u8>, r: FieldRule)
    ensures
        rule_cmp(a, a, r) == Ordering::Equal,
{
    match r {
        FieldRule::WholeLine => lemma_cmp_bytes_eq(a, a),
        FieldRule::LexicographicSlice { start, end } => lemma_cmp_bytes_eq(
            a.subrange(start as int, end as int),
            a.subrange(start as int, end as int),
        ),
        FieldRule::DateSlice { start, end } => lemma_cmp_bytes_eq(
            a.subrange(start as int, end as int),
            a.subrange(start as int, end as int),
        ),
    }
}

/// The composite comparator is antisymmetric.
pub proof fn lemma_key_cmp_flip(a: Seq<u8>, b: Seq<u8>, key: Seq<FieldRule>)
    ensures
        key_cmp(b, a, key) == flip_ord(key_cmp(a, b, key)),
    decreases key.len(),
{
    if key.len() > 0 {
        lemma_rule_cmp_flip(a, b, key[0]);
        lemma_key_cmp_flip(a, b, key.drop_first());
    }
}

/// Transitivity facts for the composite comparator.
pub proof fn lemma_key_cmp_trans(a: Seq<u8>, b: Seq<u8>, c: Seq<u8>, key: Seq<FieldRule>)
    ensures
        key_cmp(a, b, key) == Ordering::Less && key_cmp(b, c, key) == Ordering::Less ==> key_cmp(
            a,
            c,
            key,
        ) == Ordering::Less,
        key_cmp(a, b, key) == Ordering::Equal && key_cmp(b, c, key) == Ordering::Equal ==> key_cmp(
            a,
            c,
            key,
        ) == Ordering::Equal,
        key_cmp(a, b, key) == Ordering::Equal && key_cmp(b, c, key) == Ordering::Less ==> key_cmp(
            a,
            c,
            key,
        ) == Ordering::Less,
        key_cmp(a, b, key) == Ordering::Less && key_cmp(b, c, key) == Ordering::Equal ==> key_cmp(
            a,
            c,
            key,
        ) == Ordering::Less,
    decreases key.len(),
{
    if key.len() > 0 {
        lemma_rule_cmp_trans(a, b, c, key[0]);
        lemma_key_cmp_trans(a, b, c, key.drop_first());
    }
}

/// The composite comparator compares a line equal to itself.
pub proof fn lemma_key_cmp_refl(a: Seq<u8>, key: Seq<FieldRule>)
    ensures
        key_cmp(a, a, key) == Ordering::Equal,
    decreases key.len(),
{
    if key.len() > 0 {
        lemma_rule_cmp_refl(a, key[0]);
        lemma_key_cmp_refl(a, key.drop_first());
    }
}

/// The induced order is total: any two lines are comparable.
pub proof fn lemma_line_le_total(a: Seq<u8>, b: Seq<u8>, key: Seq<FieldRule>)
    ensures
        line_le(a, b, key) || line_le(b, a, key),
{
    lemma_key_cmp_flip(a, b, key);
}

/// The induced order is transitive.
pub proof fn lemma_line_le_trans(a: Seq<u8>, b: Seq<u8>, c: Seq<u8>, key: Seq<FieldRule>)
    requires
        line_le(a, b, key),
        line_le(b, c, key),
    ensures
        line_le(a, c, key),
{
    lemma_key_cmp_trans(a, b, c, key);
}

/// A common equal prefix does not affect byte comparison.
pub proof fn lemma_cmp_bytes_skip(a: Seq<u8>, b: Seq<u8>, k: int)
    requires
        0 <= k <= a.len(),
        k <= b.len(),
        forall|i: int| 0 <= i < k ==> a[i] == b[i],
    ensures
        spec_cmp_bytes(a, b) == spec_cmp_bytes(a.skip(k), b.skip(k)),
    decreases k,
{
    if k == 0 {
        assert(a.skip(0) =~= a);
        assert(b.skip(0) =~= b);
    } else {
        assert(a[0] == b[0]);
        assert forall|i: int| 0 <= i < k - 1 implies a.drop_first()[i] == b.drop_first()[i] by {
            assert(a.drop_first()[i] == a[i + 1]);
            assert(b.drop_first()[i] == b[i + 1]);
        }
        lemma_cmp_bytes_skip(a.drop_first(), b.drop_first(), k - 1);
        assert(a.drop_first().skip(k - 1) =~= a.skip(k));
        assert(b.drop_first().skip(k - 1) =~= b.skip(k));
    }
}

/// Compares the byte ranges `[start, end)` of two lines lexicographically.
pub fn compare_string_slice(a: &Vec<u8>, b: &Vec<u8>, start: usize, end: usize) -> (r: Ordering)
    requires
        start <= end,
        end <= a@.len(),
        end <= b@.len(),
    ensures
        r == spec_cmp_bytes(
            a@.subrange(start as int, end as int),
            b@.subrange(start as int, end as int),
        ),
{
    let ghost sa = a@.subrange(start as int, end as int);
    let ghost sb = b@.subrange(start as int, end as int);
    let mut i: usize = start;
    while i < end
        invariant
            start <= i <= end,
            end <= a@.len(),
            end <= b@.len(),
            sa == a@.subrange(start as int, end as int),
            sb == b@.subrange(start as int, end as int),
            forall|j: int| start <= j < i ==> a@[j] == b@[j],
        decreases end - i,
    {
        let x = a[i];
        let y = b[i];
        if x != y {
            proof {
                let k = i - start;
                assert forall|j: int| 0 <= j < k implies sa[j] == sb[j] by {
                    assert(sa[j] == a@[start + j]);
                    assert(sb[j] == b@[start + j]);
                }
                lemma_cmp_bytes_skip(sa, sb, k);
                assert(sa.skip(k)[0] == a@[i as int]);
                assert(sb.skip(k)[0] == b@[i as int]);
            }
            if x < y {
                return Ordering::Less;
            } else {
                return Ordering::Greater;
            }
        }
        i = i + 1;
    }
    proof {
        let k = (end - start) as int;
        assert forall|j: int| 0 <= j < k implies sa[j] == sb[j] by {
            assert(sa[j] == a@[start + j]);
            assert(sb[j] == b@[start + j]);
        }
        lemma_cmp_bytes_skip(sa, sb, k);
        assert(sa.skip(k).len() == 0);
        assert(sb.skip(k).len() == 0);
    }
    Ordering::Equal
}

/// Compares two whole lines lexicographically, byte by byte.
pub fn compare_bytes(a: &Vec<u8>, b: &Vec<u8>) -> (r: Ordering)
    ensures
        r == spec_cmp_bytes(a@, b@),
{
    let mut i: usize = 0;
    while i < a.len() && i < b.len()
        invariant
            i <= a@.len(),
            i <= b@.len(),
            forall|j: int| 0 <= j < i ==> a@[j] == b@[j],
        decreases a@.len() - i,
    {
        let x = a[i];
        let y = b[i];
        if x != y {
            proof {
                lemma_cmp_bytes_skip(a@, b@, i as int);
                assert(a@.skip(i as int)[0] == a@[i as int]);
                assert(b@.skip(i as int)[0] == b@[i as int]);
            }
            if x < y {
                return Ordering::Less;
            } else {
                return Ordering::Greater;
            }
        }
        i = i + 1;
    }
    proof {
        lemma_cmp_bytes_skip(a@, b@, i as int);
    }
    if a.len() < b.len() {
        Ordering::Less
    } else if a.len() > b.len() {
        Ordering::Greater
    } else {
        Ordering::Equal
    }
}

/// Whether the byte range `[start, end)` of a line is entirely spaces.
pub fn is_blank_range(v: &Vec<u8>, start: usize, end: usize) -> (r: bool)
    requires
        start <= end,
        end <= v@.len(),
    ensures
        r == spec_is_blank(v@.subrange(start as int, end as int)),
{
    let ghost s = v@.subrange(start as int, end as int);
    let mut i: usize = start;
    while i < end
        invariant
            start <= i <= end,
            end <= v@.len(),
            s == v@.subrange(start as int, end as int),
            forall|j: int| start <= j < i ==> v@[j] == SPACE,
        decreases end - i,
    {
        if v[i] != SPACE {
            proof {
                assert(s[i - start] == v@[i as int]);
            }
            return false;
        }
        i = i + 1;
    }
    proof {
        assert forall|j: int| 0 <= j < s.len() implies s[j] == SPACE by {
            assert(s[j] == v@[start + j]);
        }
    }
    true
}

/// Date comparison of two already-extracted values: two blank values are
/// equal, a blank value sorts after any non-blank value, otherwise the raw
/// bytes compare lexicographically.
pub fn compare_string_dates(a: &Vec<u8>, b: &Vec<u8>) -> (r: Ordering)
    ensures
        r == spec_cmp_dates(a@, b@),
        spec_is_blank(a@) && !spec_is_blank(b@) ==> r == Ordering::Greater,
        !spec_is_blank(a@) && spec_is_blank(b@) ==> r == Ordering::Less,
        spec_is_blank(a@) && spec_is_blank(b@) ==> r == Ordering::Equal,
{
    let blank_a = is_blank_range(a, 0, a.len());
    let blank_b = is_blank_range(b, 0, b.len());
    proof {
        assert(a@.subrange(0, a@.len() as int) =~= a@);
        assert(b@.subrange(0, b@.len() as int) =~= b@);
    }
    if blank_a && blank_b {
        Ordering::Equal
    } else if blank_a {
        Ordering::Greater
    } else if blank_b {
        Ordering::Less
    } else {
        compare_bytes(a, b)
    }
}

/// Date comparison of the byte ranges `[start, end)` of two lines.
pub fn compare_string_date_slice(a: &Vec<u8>, b: &Vec<u8>, start: usize, end: usize) -> (r:
    Ordering)
    requires
        start <= end,
        end <= a@.len(),
        end <= b@.len(),
    ensures
        r == spec_cmp_dates(
            a@.subrange(start as int, end as int),
            b@.subrange(start as int, end as int),
        ),
{
    let blank_a = is_blank_range(a, start, end);
    let blank_b = is_blank_range(b, start, end);
    if blank_a && blank_b {
        Ordering::Equal
    } else if blank_a {
        Ordering::Greater
    } else if blank_b {
        Ordering::Less
    } else {
        compare_string_slice(a, b, start, end)
    }
}

/// Compares two lines under the composite sort key: rules are evaluated in
/// order and the first rule that does not compare equal decides.
pub fn compare_by_predicate(a: &Vec<u8>, b: &Vec<u8>, tup: &Vec<FieldRule>) -> (r: Ordering)
    requires
        key_fits(a@, tup@),
        key_fits(b@, tup@),
    ensures
        r == key_cmp(a@, b@, tup@),
{
    let mut i: usize = 0;
    proof {
        assert(tup@.skip(0) =~= tup@);
    }
    while i < tup.len()
        invariant
            i <= tup@.len(),
            key_fits(a@, tup@),
            key_fits(b@, tup@),
            key_cmp(a@, b@, tup@) == key_cmp(a@, b@, tup@.skip(i as int)),
        decreases tup@.len() - i,
    {
        let r = tup[i];
        proof {
            assert(rule_fits(a@, tup@[i as int]));
            assert(rule_fits(b@, tup@[i as int]));
            assert(tup@.skip(i as int)[0] == tup@[i as int]);
        }
        let c = match r {
            FieldRule::WholeLine => compare_bytes(a, b),
            FieldRule::LexicographicSlice { start, end } => compare_string_slice(a, b, start, end),
            FieldRule::DateSlice { start, end } => compare_string_date_slice(a, b, start, end),
        };
        if matches!(c, Ordering::Equal) {
            proof {
                assert(tup@.skip(i as int).drop_first() =~= tup@.skip(i as int + 1));
            }
            i = i + 1;
        } else {
            return c;
        }
    }
    proof {
        assert(tup@.skip(i as int).len() == 0);
    }
    Ordering::Equal
}

} // verus!
