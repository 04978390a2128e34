use vstd::prelude::*;

use crate::options::{MatchOptions, spec_chars_eq, chars_eq, is_ascii_char, ascii_lower, ascii_upper, to_ascii_lower, elem_at};

verus! {

/// One item of a bracket expression `[...]`: a single char or an inclusive
/// range of chars.
#[derive(Clone, Copy, Debug, PartialEq, Eq, Structural, Hash, PartialOrd, Ord)]
pub enum CharSpecifier {
    SingleChar(char),
    CharRange(char, char),
}

/// The specifiers that the bracket contents `s[i..]` stand for: `x-y` is a
/// range where three chars with a `-` in the middle remain, any other char
/// stands for itself.
pub open spec fn specifiers_from(s: Seq<char>, i: int) -> Seq<CharSpecifier>
    decreases s.len() - i,
{
    if i < 0 || i >= s.len() {
        Seq::empty()
    } else if i + 3 <= s.len() && s[i + 1] == '-' {
        seq![CharSpecifier::CharRange(s[i], s[i + 2])] + specifiers_from(s, i + 3)
    } else {
        seq![CharSpecifier::SingleChar(s[i])] + specifiers_from(s, i + 1)
    }
}

/// Parses the contents of a bracket expression (without the brackets).
pub fn parse_char_specifiers(s: &[char]) -> (cs: Vec<CharSpecifier>)
    ensures
        cs@ == specifiers_from(s@, 0),
{
    let mut cs: Vec<CharSpecifier> = Vec::new();
    let mut i: usize = 0;
    while i < s.len()
        invariant
            i <= s@.len(),
            cs@ + specifiers_from(s@, i as int) == specifiers_from(s@, 0),
        decreases s@.len() - i,
    {
        let ghost old_cs = cs@;
        let ghost old_i = i as int;
        let is_range = s.len() - i >= 3 && elem_at(s, i + 1) == '-';
        let item = if is_range {
            CharSpecifier::CharRange(elem_at(s, i), elem_at(s, i + 2))
        } else {
            CharSpecifier::SingleChar(elem_at(s, i))
        };
        let step: usize = if is_range { 3 } else { 1 };
        cs.push(item);
        assert(cs@ == old_cs.push(item));
        i += step;
        assert(specifiers_from(s@, old_i) == seq![item] + specifiers_from(s@, i as int));
        assert(old_cs.push(item) =~= old_cs + seq![item]);
        assert(cs@ + specifiers_from(s@, i as int) =~= old_cs + specifiers_from(s@, old_i));
    }
    assert(cs@ =~= specifiers_from(s@, 0));
    cs
}

/// Whether an ASCII char is a letter whose case can be folded: it differs
/// from its upper-case form after lower-casing.
pub open spec fn folds_case(c: char) -> bool {
    ascii_lower(c) != ascii_upper(ascii_lower(c))
}

/// Whether `c` is matched by one specifier.
pub open spec fn specifier_matches(sp: CharSpecifier, c: char, case_sensitive: bool) -> bool {
    match sp {
        CharSpecifier::SingleChar(sc) => spec_chars_eq(c, sc, case_sensitive),
        CharSpecifier::CharRange(start, end) => {
            ||| (start <= c && c <= end)
            ||| {
                &&& !case_sensitive
                &&& is_ascii_char(c)
                &&& is_ascii_char(start)
                &&& is_ascii_char(end)
                &&& folds_case(start)
                &&& folds_case(end)
                &&& ascii_lower(start) <= ascii_lower(c)
                &&& ascii_lower(c) <= ascii_lower(end)
            }
        },
    }
}

/// Whether `c` is matched by some specifier of the list.
pub open spec fn in_specifiers(specs: Seq<CharSpecifier>, c: char, case_sensitive: bool) -> bool {
    exists|k: int| 0 <= k < specs.len() && specifier_matches(#[trigger] specs[k], c, case_sensitive)
}

fn specifier_at(s: &[CharSpecifier], i: usize) -> (x: CharSpecifier)
    requires
        i < s@.len(),
    ensures
        x == s@[i as int],
{
    s[i]
}

fn to_ascii_upper(c: char) -> (r: char)
    ensures
        r == ascii_upper(c),
{
    if 'a' <= c && c <= 'z' {
        (((c as u32) - 32) as u8) as char
    } else {
        c
    }
}

/// Whether `c` is matched by one of the specifiers, under the case
/// sensitivity of `options`.
pub fn in_char_specifiers(specifiers: &[CharSpecifier], c: char, options: &MatchOptions) -> (r: bool)
    ensures
        r == in_specifiers(specifiers@, c, options.case_sensitive),
{
    let mut k: usize = 0;
    while k < specifiers.len()
        invariant
            k <= specifiers@.len(),
            forall|j: int| 0 <= j < k ==> !specifier_matches(#[trigger] specifiers@[j], c, options.case_sensitive),
        decreases specifiers@.len() - k,
    {
        match specifier_at(specifiers, k) {
            CharSpecifier::SingleChar(sc) => {
                if chars_eq(c, sc, options.case_sensitive) {
                    assert(specifier_matches(specifiers@[k as int], c, options.case_sensitive));
                    return true;
                }
            },
            CharSpecifier::CharRange(start, end) => {
                if !options.case_sensitive && (c as u32) < 128 && (start as u32) < 128
                    && (end as u32) < 128 {
                    let start_l = to_ascii_lower(start);
                    let end_l = to_ascii_lower(end);
                    let start_up = to_ascii_upper(start_l);
                    let end_up = to_ascii_upper(end_l);
                    if start_l != start_up && end_l != end_up {
                        let c_l = to_ascii_lower(c);
                        if c_l >= start_l && c_l <= end_l {
                            assert(specifier_matches(specifiers@[k as int], c, options.case_sensitive));
                            return true;
                        }
                    }
                }
                if c >= start && c <= end {
                    assert(specifier_matches(specifiers@[k as int], c, options.case_sensitive));
                    return true;
                }
            },
        }
        k += 1;
    }
    false
}

} // verus!
