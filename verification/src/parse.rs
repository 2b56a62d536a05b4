//! The textual form of a rewrite rule: `<column>:<category>`, where
//! `<column>` is a 0-based decimal index and `<category>` names the kind
//! of synthetic value to substitute.

use vstd::prelude::*;

use crate::errors::AnonError;
use crate::rules::{Category, RewriteRule};

verus! {

/// A decimal digit.
pub open spec fn is_digit(c: char) -> bool {
    48 <= c as int <= 57
}

/// Every character of the sequence is a decimal digit.
pub open spec fn all_digits(s: Seq<char>) -> bool {
    forall|i: int| 0 <= i < s.len() ==> is_digit(#[trigger] s[i])
}

/// The value of a decimal digit string, most significant digit first.
pub open spec fn digits_val(s: Seq<char>) -> int
    decreases s.len(),
{
    if s.len() == 0 {
        0
    } else {
        digits_val(s.drop_last()) * 10 + (s.last() as int - 48)
    }
}

/// Index of the first `:` in the sequence, or -1 when there is none.
pub open spec fn first_colon(s: Seq<char>) -> int
    decreases s.len(),
{
    if s.len() == 0 {
        -1
    } else if s.first() == ':' {
        0
    } else if first_colon(s.drop_first()) == -1 {
        -1
    } else {
        first_colon(s.drop_first()) + 1
    }
}

/// The category a name denotes, if any.
pub open spec fn category_of(s: Seq<char>) -> Option<Category> {
    if s == "Internet.safe_email"@ {
        Some(Category::SafeEmail)
    } else if s == "Name.name"@ {
        Some(Category::FullName)
    } else if s == "Name.first_name"@ {
        Some(Category::FirstName)
    } else if s == "Name.last_name"@ {
        Some(Category::LastName)
    } else if s == "Address.zip"@ {
        Some(Category::Zip)
    } else {
        None
    }
}

/// The rule a description denotes: a non-empty decimal column index that
/// fits the machine, a `:`, and a known category name.
pub open spec fn spec_parse_rule(s: Seq<char>) -> Option<RewriteRule> {
    let p = first_colon(s);
    if p < 0 {
        None
    } else {
        match category_of(s.skip(p + 1)) {
            Some(kind) => {
                let left = s.take(p);
                if left.len() > 0 && all_digits(left) && digits_val(left) <= usize::MAX {
                    Some(RewriteRule { column: digits_val(left) as usize, kind })
                } else {
                    None
                }
            },
            None => None,
        }
    }
}

proof fn lemma_first_colon(s: Seq<char>)
    ensures
        first_colon(s) >= -1,
        first_colon(s) == -1 ==> forall|j: int| 0 <= j < s.len() ==> s[j] != ':',
        first_colon(s) >= 0 ==> 0 <= first_colon(s) < s.len() && s[first_colon(s)] == ':' && (
        forall|j: int| 0 <= j < first_colon(s) ==> s[j] != ':'),
    decreases s.len(),
{
    if s.len() > 0 && s.first() != ':' {
        lemma_first_colon(s.drop_first());
        let fcd = first_colon(s.drop_first());
        if fcd == -1 {
            assert forall|j: int| 0 <= j < s.len() implies s[j] != ':' by {
                if j > 0 {
                    assert(s.drop_first()[j - 1] == s[j]);
                }
            }
        } else {
            assert(s.drop_first()[fcd] == s[fcd + 1]);
            assert forall|j: int| 0 <= j < first_colon(s) implies s[j] != ':' by {
                if j > 0 {
                    assert(s.drop_first()[j - 1] == s[j]);
                }
            }
        }
    }
}

proof fn lemma_digits_val_nonneg(s: Seq<char>)
    requires
        all_digits(s),
    ensures
        digits_val(s) >= 0,
    decreases s.len(),
{
    if s.len() > 0 {
        assert(all_digits(s.drop_last())) by {
            assert forall|i: int| 0 <= i < s.drop_last().len() implies is_digit(
                #[trigger] s.drop_last()[i],
            ) by {
                assert(s.drop_last()[i] == s[i]);
            }
        }
        lemma_digits_val_nonneg(s.drop_last());
        assert(is_digit(s[s.len() - 1]));
    }
}

proof fn lemma_digits_val_prefix(s: Seq<char>, m: int)
    requires
        all_digits(s),
        0 <= m <= s.len(),
    ensures
        digits_val(s.take(m)) <= digits_val(s),
    decreases s.len(),
{
    if m < s.len() {
        assert(all_digits(s.drop_last())) by {
            assert forall|i: int| 0 <= i < s.drop_last().len() implies is_digit(
                #[trigger] s.drop_last()[i],
            ) by {
                assert(s.drop_last()[i] == s[i]);
            }
        }
        assert(s.drop_last().take(m) =~= s.take(m));
        lemma_digits_val_prefix(s.drop_last(), m);
        lemma_digits_val_nonneg(s.drop_last());
        assert(is_digit(s[s.len() - 1]));
    } else {
        assert(s.take(m) =~= s);
    }
}

/// Position of the first `:` of the description, if it has one.
fn find_colon(src: &str) -> (r: Option<usize>)
    ensures
        match r {
            Some(p) => p == first_colon(src@) && p < src@.len() && p < usize::MAX && src@[p
                as int] == ':',
            None => first_colon(src@) == -1,
        },
{
    let n = src.unicode_len();
    let mut p: usize = 0;
    while p < n
        invariant
            n == src@.len(),
            p <= n,
            forall|j: int| 0 <= j < p ==> src@[j] != ':',
        decreases n - p,
    {
        let c = src.get_char(p);
        if c == ':' {
            proof {
                lemma_first_colon(src@);
                let fc = first_colon(src@);
                assert(c == src@[p as int]);
                if fc == -1 {
                    assert(src@[p as int] != ':');
                    assert(false);
                } else if fc < p {
                    assert(src@[fc] != ':');
                    assert(false);
                } else if fc > p {
                    assert(src@[p as int] != ':');
                    assert(false);
                }
            }
            return Some(p);
        }
        p += 1;
    }
    proof {
        lemma_first_colon(src@);
        if first_colon(src@) >= 0 {
            assert(src@[first_colon(src@)] == ':');
            assert(src@[first_colon(src@)] != ':');
            assert(false);
        }
    }
    None
}

/// The column index written before the `:`, when it is a well-formed
/// decimal number the machine can hold.
fn parse_column(src: &str, p: usize) -> (r: Option<usize>)
    requires
        p <= src@.len(),
    ensures
        ({
            let left = src@.take(p as int);
            match r {
                Some(c) => left.len() > 0 && all_digits(left) && digits_val(left) == c,
                None => !(left.len() > 0 && all_digits(left) && digits_val(left) <= usize::MAX),
            }
        }),
{
    let ghost left = src@.take(p as int);
    if p == 0 {
        return None;
    }
    let mut col: usize = 0;
    let mut i: usize = 0;
    while i < p
        invariant
            p <= src@.len(),
            0 < p,
            i <= p,
            left == src@.take(p as int),
            all_digits(src@.take(i as int)),
            col == digits_val(src@.take(i as int)),
        decreases p - i,
    {
        let c = src.get_char(i);
        let d: u32 = c as u32;
        proof {
            assert(c == src@[i as int]);
        }
        if d < 48 || d > 57 {
            proof {
                assert(!is_digit(src@[i as int]));
                assert(left[i as int] == src@[i as int]);
                assert(!all_digits(left));
            }
            return None;
        }
        let ghost next_prefix = src@.take(i + 1);
        proof {
            assert(next_prefix.drop_last() =~= src@.take(i as int));
            assert(next_prefix.last() == src@[i as int]);
            assert(all_digits(next_prefix)) by {
                assert forall|j: int| 0 <= j < next_prefix.len() implies is_digit(
                    #[trigger] next_prefix[j],
                ) by {
                    if j < i {
                        assert(next_prefix[j] == src@.take(i as int)[j]);
                    } else {
                        assert(next_prefix[j] == src@[i as int]);
                    }
                }
            }
            assert(digits_val(next_prefix) == digits_val(src@.take(i as int)) * 10 + (
            src@[i as int] as int - 48));
        }
        let digit: usize = (d - 48) as usize;
        let stepped = col.checked_mul(10);
        let extended = match stepped {
            Some(v) => v.checked_add(digit),
            None => None,
        };
        match extended {
            Some(v) => {
                col = v;
            },
            None => {
                proof {
                    assert(digits_val(next_prefix) > usize::MAX);
                    if all_digits(left) {
                        lemma_digits_val_prefix(left, i + 1);
                        assert(left.take(i + 1) =~= next_prefix);
                        assert(digits_val(left) > usize::MAX);
                    }
                }
                return None;
            },
        }
        i += 1;
    }
    proof {
        assert(src@.take(i as int) =~= left);
    }
    Some(col)
}

/// Whether the description from `from` on reads exactly as `lit`.
fn tail_is(src: &str, from: usize, lit: &str) -> (b: bool)
    requires
        from <= src@.len(),
    ensures
        b == (src@.skip(from as int) == lit@),
{
    let n = src.unicode_len();
    let m = lit.unicode_len();
    if n - from != m {
        proof {
            assert(src@.skip(from as int).len() != lit@.len());
        }
        return false;
    }
    let mut i: usize = 0;
    while i < m
        invariant
            n == src@.len(),
            m == lit@.len(),
            from + m == n,
            i <= m,
            forall|j: int| 0 <= j < i ==> src@[from + j] == lit@[j],
        decreases m - i,
    {
        let a = src.get_char(from + i);
        let b = lit.get_char(i);
        if a != b {
            proof {
                assert(src@.skip(from as int) != lit@) by {
                    if src@.skip(from as int) == lit@ {
                        assert(src@.skip(from as int)[i as int] == lit@[i as int]);
                        assert(src@.skip(from as int)[i as int] == src@[from + i]);
                    }
                }
            }
            return false;
        }
        i += 1;
    }
    proof {
        assert(src@.skip(from as int) =~= lit@) by {
            assert forall|j: int| 0 <= j < m implies src@.skip(from as int)[j] == lit@[j] by {
                assert(src@.skip(from as int)[j] == src@[from + j]);
            }
        }
    }
    true
}

/// Parses one rule description of the form `<column>:<category>`.
/// Exactly the descriptions `spec_parse_rule` accepts yield a rule; every
/// other input is rejected as `RuleParse`.
pub fn parse_spec(src: &str) -> (r: Result<RewriteRule, AnonError>)
    ensures
        match r {
            Ok(rule) => spec_parse_rule(src@) == Some(rule),
            Err(e) => e == AnonError::RuleParse && spec_parse_rule(src@) is None,
        },
{
    let p = match find_colon(src) {
        Some(p) => p,
        None => {
            return Err(AnonError::RuleParse);
        },
    };
    let column = match parse_column(src, p) {
        Some(c) => c,
        None => {
            return Err(AnonError::RuleParse);
        },
    };
    let kind = if tail_is(src, p + 1, "Internet.safe_email") {
        Category::SafeEmail
    } else if tail_is(src, p + 1, "Name.name") {
        Category::FullName
    } else if tail_is(src, p + 1, "Name.first_name") {
        Category::FirstName
    } else if tail_is(src, p + 1, "Name.last_name") {
        Category::LastName
    } else if tail_is(src, p + 1, "Address.zip") {
        Category::Zip
    } else {
        proof {
            assert(category_of(src@.skip(p + 1)) is None);
        }
        return Err(AnonError::RuleParse);
    };
    Ok(RewriteRule { column, kind })
}

} // verus!
