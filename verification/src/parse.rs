//! The sort-spec parser: a textual key specification is translated into the
//! ordered list of field rules consumed by the comparator.
//!
//! The grammar is a sequence of rules separated by `;`, with an optional
//! trailing `;`. Each rule is `kind,start,length` where `kind` is `s`
//! (lexicographic slice) or `d` (date slice) and `start` and `length` are
//! base-10 non-negative integers; the rule's range is `[start, start+length)`.
//! The reserved keyword `line` selects the single whole-line rule instead.
//! Any other input is rejected as a malformed specification.

use vstd::prelude::*;
use crate::order::FieldRule;
use crate::SortError;

verus! {

/// ASCII `;`, the rule separator.
pub const SEMI: u8 = 59;

/// ASCII `,`, the field separator inside a rule.
pub const COMMA: u8 = 44;

/// ASCII `s`, the lexicographic-slice rule kind.
pub const KIND_LEX: u8 = 115;

/// ASCII `d`, the date-slice rule kind.
pub const KIND_DATE: u8 = 100;

/// ASCII `0`.
pub const DIGIT_ZERO: u8 = 48;

/// ASCII `9`.
pub const DIGIT_NINE: u8 = 57;

/// The keyword selecting the single whole-line rule: the bytes of `line`.
pub open spec fn line_keyword() -> Seq<u8> {
    seq![108u8, 105u8, 110u8, 101u8]
}

/// Whether a byte is an ASCII decimal digit.
pub open spec fn is_digit(c: u8) -> bool {
    DIGIT_ZERO <= c <= DIGIT_NINE
}

/// The numeric value of a digit byte; zero for anything else.
pub open spec fn byte_val(c: u8) -> nat {
    if is_digit(c) {
        (c - DIGIT_ZERO) as nat
    } else {
        0
    }
}

/// The index just past the run of digit bytes that starts at `i`.
pub open spec fn digits_end(s: Seq<u8>, i: int) -> int
    decreases s.len() - i,
{
    if i < 0 || i >= s.len() {
        i
    } else if is_digit(s[i]) {
        digits_end(s, i + 1)
    } else {
        i
    }
}

/// The base-10 value of the bytes `s[i..j)`.
pub open spec fn digits_val(s: Seq<u8>, i: int, j: int) -> nat
    decreases j - i,
{
    if j <= i {
        0
    } else {
        digits_val(s, i, j - 1) * 10 + byte_val(s[j - 1])
    }
}

/// The rule that starts at position `i`, with the position just past it
/// (past its trailing `;` if one is present), or nothing if no well-formed
/// rule starts there. A rule is `kind`, `,`, digits, `,`, digits, and then
/// either `;` or the end of the input; both numbers and their sum must fit
/// in `usize`.
pub open spec fn spec_rule_at(s: Seq<u8>, i: int) -> Option<(FieldRule, int)> {
    if !(0 <= i && i + 1 < s.len()) {
        None
    } else if s[i] != KIND_LEX && s[i] != KIND_DATE {
        None
    } else if s[i + 1] != COMMA {
        None
    } else {
        let j1 = digits_end(s, i + 2);
        if j1 == i + 2 {
            None
        } else if digits_val(s, i + 2, j1) > usize::MAX {
            None
        } else if !(j1 < s.len() && s[j1] == COMMA) {
            None
        } else {
            let j2 = digits_end(s, j1 + 1);
            if j2 == j1 + 1 {
                None
            } else if digits_val(s, j1 + 1, j2) > usize::MAX {
                None
            } else {
                let start = digits_val(s, i + 2, j1);
                let length = digits_val(s, j1 + 1, j2);
                if start + length > usize::MAX {
                    None
                } else {
                    let rule = if s[i] == KIND_LEX {
                        FieldRule::LexicographicSlice {
                            start: start as usize,
                            end: (start + length) as usize,
                        }
                    } else {
                        FieldRule::DateSlice { start: start as usize, end: (start + length) as usize }
                    };
                    if j2 == s.len() {
                        Some((rule, j2))
                    } else if s[j2] == SEMI {
                        Some((rule, j2 + 1))
                    } else {
                        None
                    }
                }
            }
        }
    }
}

/// The list of rules that starts at position `i` and runs to the end of the
/// input, or nothing if the input from `i` on is not a well-formed list.
pub open spec fn spec_rules_from(s: Seq<u8>, i: int) -> Option<Seq<FieldRule>>
    decreases s.len() - i,
{
    match spec_rule_at(s, i) {
        None => None,
        Some((r, j)) => if !(i < j && j <= s.len()) {
            None
        } else if j == s.len() {
            Some(seq![r])
        } else {
            match spec_rules_from(s, j) {
                None => None,
                Some(t) => Some(seq![r] + t),
            }
        },
    }
}

/// What a specification text denotes: the single whole-line rule for the
/// keyword `line`, the parsed rule list otherwise, or nothing if malformed.
pub open spec fn spec_sorter(s: Seq<u8>) -> Option<Seq<FieldRule>> {
    if s == line_keyword() {
        Some(seq![FieldRule::WholeLine])
    } else {
        spec_rules_from(s, 0)
    }
}

/// Basic facts about `digits_end`: it stays within the input, everything
/// before it is a digit, and the byte at it (if any) is not.
pub proof fn lemma_digits_end_props(s: Seq<u8>, i: int)
    requires
        0 <= i <= s.len(),
    ensures
        i <= digits_end(s, i) <= s.len(),
        forall|k: int| i <= k < digits_end(s, i) ==> is_digit(s[k]),
        digits_end(s, i) < s.len() ==> !is_digit(s[digits_end(s, i)]),
    decreases s.len() - i,
{
    if i < s.len() && is_digit(s[i]) {
        lemma_digits_end_props(s, i + 1);
    }
}

/// The value of a digit run never shrinks as the run extends to the right.
pub proof fn lemma_digits_val_mono(s: Seq<u8>, i: int, j: int, j2: int)
    requires
        j <= j2,
    ensures
        digits_val(s, i, j) <= digits_val(s, i, j2),
    decreases j2 - j,
{
    if j < j2 {
        lemma_digits_val_mono(s, i, j, j2 - 1);
    }
}

/// Parses the digit run that starts at `from`: its value and the position
/// just past it. Nothing is returned when no digit stands at `from` or the
/// value does not fit in `usize`.
fn parse_number(s: &Vec<u8>, from: usize) -> (r: Option<(usize, usize)>)
    requires
        from <= s@.len(),
    ensures
        match r {
            Some(p) => {
                &&& p.1 == digits_end(s@, from as int)
                &&& from < p.1 <= s@.len()
                &&& p.0 == digits_val(s@, from as int, p.1 as int)
            },
            None => digits_end(s@, from as int) == from || digits_val(
                s@,
                from as int,
                digits_end(s@, from as int),
            ) > usize::MAX,
        },
{
    proof {
        lemma_digits_end_props(s@, from as int);
    }
    let ghost de = digits_end(s@, from as int);
    let n = s.len();
    let mut j = from;
    let mut val: usize = 0;
    while j < n && s[j] >= DIGIT_ZERO && s[j] <= DIGIT_NINE
        invariant
            from <= j <= n,
            n == s@.len(),
            de == digits_end(s@, from as int),
            from <= de <= n,
            forall|k: int| from <= k < de ==> is_digit(s@[k]),
            de < n ==> !is_digit(s@[de]),
            j <= de,
            forall|k: int| from <= k < j ==> is_digit(s@[k]),
            val == digits_val(s@, from as int, j as int),
        decreases n - j,
    {
        let d = (s[j] - DIGIT_ZERO) as usize;
        let val10 = match val.checked_mul(10) {
            Some(v) => v,
            None => {
                proof {
                    assert(j < de) by {
                        if de <= j {
                            assert(is_digit(s@[de as int]));
                        }
                    }
                    lemma_digits_val_mono(s@, from as int, j as int + 1, de);
                }
                return None;
            },
        };
        let val2 = match val10.checked_add(d) {
            Some(v) => v,
            None => {
                proof {
                    assert(j < de) by {
                        if de <= j {
                            assert(is_digit(s@[de as int]));
                        }
                    }
                    lemma_digits_val_mono(s@, from as int, j as int + 1, de);
                }
                return None;
            },
        };
        proof {
            assert(j < de) by {
                if de <= j {
                    assert(is_digit(s@[de as int]));
                }
            }
            assert(digits_val(s@, from as int, j as int + 1) == val * 10 + byte_val(s@[j as int]));
        }
        val = val2;
        j = j + 1;
    }
    proof {
        assert(j == de) by {
            if j < de {
                assert(is_digit(s@[j as int]));
            }
        }
    }
    if j == from {
        None
    } else {
        Some((val, j))
    }
}

/// Parses the rule that starts at position `i`, returning it with the
/// position just past it, exactly as `spec_rule_at` describes.
fn parse_rule_at(s: &Vec<u8>, i: usize) -> (r: Option<(FieldRule, usize)>)
    requires
        i <= s@.len(),
    ensures
        match r {
            Some(p) => {
                &&& spec_rule_at(s@, i as int) == Some((p.0, p.1 as int))
                &&& i < p.1 <= s@.len()
            },
            None => spec_rule_at(s@, i as int) == None::<(FieldRule, int)>,
        },
{
    let n = s.len();
    if i >= n || i + 1 >= n {
        return None;
    }
    let kind = s[i];
    if kind != KIND_LEX && kind != KIND_DATE {
        return None;
    }
    if s[i + 1] != COMMA {
        return None;
    }
    let (start, j1) = match parse_number(s, i + 2) {
        Some(p) => p,
        None => {
            return None;
        },
    };
    if j1 >= n || s[j1] != COMMA {
        return None;
    }
    let (length, j2) = match parse_number(s, j1 + 1) {
        Some(p) => p,
        None => {
            return None;
        },
    };
    let end = match start.checked_add(length) {
        Some(e) => e,
        None => {
            return None;
        },
    };
    let rule = if kind == KIND_LEX {
        FieldRule::LexicographicSlice { start, end }
    } else {
        FieldRule::DateSlice { start, end }
    };
    if j2 == n {
        Some((rule, j2))
    } else if s[j2] == SEMI {
        Some((rule, j2 + 1))
    } else {
        None
    }
}

/// Translates a specification text into the ordered list of field rules, or
/// reports a malformed specification. The keyword `line` selects the single
/// whole-line rule; otherwise the text must follow the rule grammar.
pub fn sorter(sort_value: &Vec<u8>) -> (r: Result<Vec<FieldRule>, SortError>)
    ensures
        match r {
            Ok(key) => spec_sorter(sort_value@) == Some(key@),
            Err(e) => {
                &&& spec_sorter(sort_value@) == None::<Seq<FieldRule>>
                &&& e == SortError::MalformedSpec
            },
        },
{
    let ghost s = sort_value@;
    if sort_value.len() == 4 && sort_value[0] == 108 && sort_value[1] == 105 && sort_value[2]
        == 110 && sort_value[3] == 101 {
        proof {
            assert(s =~= line_keyword());
        }
        let mut key: Vec<FieldRule> = Vec::new();
        key.push(FieldRule::WholeLine);
        proof {
            assert(key@ =~= seq![FieldRule::WholeLine]);
        }
        return Ok(key);
    }
    proof {
        assert(s != line_keyword()) by {
            if s == line_keyword() {
                assert(s.len() == 4);
                assert(s[0] == 108u8 && s[1] == 105u8 && s[2] == 110u8 && s[3] == 101u8);
            }
        }
    }
    let n = sort_value.len();
    let mut acc: Vec<FieldRule> = Vec::new();
    let mut i: usize = 0;
    if n == 0 {
        return Err(SortError::MalformedSpec);
    }
    proof {
        if let Some(t) = spec_rules_from(s, 0) {
            assert(acc@ + t =~= t);
        }
    }
    while i < n
        invariant
            0 <= i <= n,
            n == s.len(),
            s == sort_value@,
            s != line_keyword(),
            spec_rules_from(s, 0) == (if i == n {
                Some(acc@)
            } else {
                match spec_rules_from(s, i as int) {
                    None => None::<Seq<FieldRule>>,
                    Some(t) => Some(acc@ + t),
                }
            }),
        decreases n - i,
    {
        match parse_rule_at(sort_value, i) {
            None => {
                return Err(SortError::MalformedSpec);
            },
            Some((rule, j)) => {
                let ghost old_acc = acc@;
                acc.push(rule);
                proof {
                    if j == n {
                        assert(spec_rules_from(s, i as int) == Some(seq![rule]));
                        assert(old_acc + seq![rule] =~= acc@);
                    } else {
                        if let Some(t2) = spec_rules_from(s, j as int) {
                            assert(spec_rules_from(s, i as int) == Some(seq![rule] + t2));
                            assert(old_acc + (seq![rule] + t2) =~= acc@ + t2);
                        }
                    }
                }
                i = j;
            },
        }
    }
    Ok(acc)
}

} // verus!
