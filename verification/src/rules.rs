//! Rewrite rules and their validation: a rule names a 0-based column and the
//! category of synthetic value that replaces it. A rule set is accepted only
//! if its column indices are pairwise distinct.

use vstd::prelude::*;

use crate::errors::AnonError;

verus! {

/// The category of synthetic value a rule asks for.
#[derive(Clone, Copy, Debug, PartialEq, Eq, Structural)]
pub enum Category {
    /// An e-mail address on an example domain.
    SafeEmail,
    /// A full person name.
    FullName,
    /// A given name.
    FirstName,
    /// A family name.
    LastName,
    /// A postal code.
    Zip,
}

/// One rewrite rule: replace the field at `column` (0-based) with a
/// synthetic value of category `kind`.
#[derive(Clone, Copy, Debug, PartialEq, Eq, Structural)]
pub struct RewriteRule {
    pub column: usize,
    pub kind: Category,
}

/// The column index of each rule, in rule order.
pub open spec fn columns_of(rules: Seq<RewriteRule>) -> Seq<usize> {
    rules.map_values(|r: RewriteRule| r.column)
}

/// No value occurs twice in the sequence.
pub open spec fn all_distinct(cols: Seq<usize>) -> bool {
    forall|i: int, j: int| 0 <= i < j < cols.len() ==> cols[i] != cols[j]
}

/// How many distinct values the sequence holds.
pub open spec fn distinct_count(cols: Seq<usize>) -> nat
    decreases cols.len(),
{
    if cols.len() == 0 {
        0
    } else if cols.drop_last().contains(cols.last()) {
        distinct_count(cols.drop_last())
    } else {
        distinct_count(cols.drop_last()) + 1
    }
}

/// The distinct values of a sequence are never more than its elements.
pub proof fn lemma_distinct_count_le_len(cols: Seq<usize>)
    ensures
        distinct_count(cols) <= cols.len(),
    decreases cols.len(),
{
    if cols.len() > 0 {
        lemma_distinct_count_le_len(cols.drop_last());
    }
}

/// A sequence has as many distinct values as elements exactly when no value
/// repeats.
pub proof fn lemma_distinct_count_complete(cols: Seq<usize>)
    ensures
        distinct_count(cols) == cols.len() <==> all_distinct(cols),
    decreases cols.len(),
{
    if cols.len() > 0 {
        let prefix = cols.drop_last();
        lemma_distinct_count_complete(prefix);
        lemma_distinct_count_le_len(prefix);
        if all_distinct(cols) {
            assert(all_distinct(prefix));
            assert(!prefix.contains(cols.last())) by {
                if prefix.contains(cols.last()) {
                    let i = choose|i: int| 0 <= i < prefix.len() && prefix[i] == cols.last();
                    assert(cols[i] == cols[cols.len() - 1]);
                }
            }
        } else {
            if !prefix.contains(cols.last()) && distinct_count(cols) == cols.len() {
                assert(all_distinct(prefix));
                assert forall|i: int, j: int| 0 <= i < j < cols.len() implies cols[i] != cols[j] by {
                    if j < cols.len() - 1 {
                        assert(prefix[i] == cols[i] && prefix[j] == cols[j]);
                    } else {
                        assert(prefix[i] == cols[i]);
                    }
                }
            }
        }
    }
}

/// Whether `v` holds `x`.
fn contains_col(v: &Vec<usize>, x: usize) -> (b: bool)
    ensures
        b == v@.contains(x),
{
    let mut i: usize = 0;
    while i < v.len()
        invariant
            i <= v@.len(),
            forall|j: int| 0 <= j < i ==> v@[j] != x,
        decreases v@.len() - i,
    {
        if v[i] == x {
            return true;
        }
        i += 1;
    }
    false
}

/// Checks a rule set for structural consistency: every rule must target its
/// own column. On success the set may be used for a run; on failure the
/// error carries the number of rules in excess of the distinct columns.
pub fn validated(rules: &Vec<RewriteRule>) -> (r: Result<(), AnonError>)
    ensures
        r is Ok <==> all_distinct(columns_of(rules@)),
        r is Err ==> r == Err::<(), AnonError>(
            AnonError::DuplicateColumns {
                duplicates: (rules@.len() - distinct_count(columns_of(rules@))) as usize,
            },
        ),
{
    let ghost cols = columns_of(rules@);
    let mut seen: Vec<usize> = Vec::new();
    let mut duplicates: usize = 0;
    let mut i: usize = 0;
    while i < rules.len()
        invariant
            i <= rules@.len(),
            cols == columns_of(rules@),
            seen@ == cols.take(i as int),
            duplicates + distinct_count(cols.take(i as int)) == i,
        decreases rules@.len() - i,
    {
        let c = rules[i].column;
        let dup = contains_col(&seen, c);
        proof {
            assert(cols.take(i + 1).drop_last() =~= cols.take(i as int));
            assert(cols.take(i + 1).last() == cols[i as int]);
            assert(cols[i as int] == rules@[i as int].column);
            lemma_distinct_count_le_len(cols.take(i as int));
        }
        if dup {
            duplicates += 1;
        }
        seen.push(c);
        i += 1;
    }
    proof {
        assert(cols.take(rules@.len() as int) =~= cols);
        lemma_distinct_count_complete(cols);
        lemma_distinct_count_le_len(cols);
    }
    if duplicates == 0 {
        Ok(())
    } else {
        Err(AnonError::DuplicateColumns { duplicates })
    }
}


/// Columns strictly increase along the rule sequence.
pub open spec fn strictly_increasing_columns(rules: Seq<RewriteRule>) -> bool {
    forall|a: int, b: int| 0 <= a < b < rules.len() ==> rules[a].column < rules[b].column
}

/// Position of a rule whose column is smallest.
fn min_column_index(v: &Vec<RewriteRule>) -> (m: usize)
    requires
        v@.len() > 0,
    ensures
        m < v@.len(),
        forall|j: int| 0 <= j < v@.len() ==> v@[m as int].column <= v@[j].column,
{
    let mut m: usize = 0;
    let mut k: usize = 1;
    while k < v.len()
        invariant
            v@.len() > 0,
            m < k,
            k <= v@.len(),
            forall|j: int| 0 <= j < k ==> v@[m as int].column <= v@[j].column,
        decreases v@.len() - k,
    {
        if v[k].column < v[m].column {
            m = k;
        }
        k += 1;
    }
    m
}

/// The same rules, arranged by ascending column index. Distinct columns
/// make the order strict, which is what the splicing pass needs.
pub fn sorted_by_column(rules: &Vec<RewriteRule>) -> (out: Vec<RewriteRule>)
    requires
        all_distinct(columns_of(rules@)),
    ensures
        out@.len() == rules@.len(),
        forall|x: RewriteRule| out@.contains(x) <==> rules@.contains(x),
        strictly_increasing_columns(out@),
{
    let mut rest: Vec<RewriteRule> = Vec::new();
    let mut i: usize = 0;
    while i < rules.len()
        invariant
            i <= rules@.len(),
            rest@ == rules@.take(i as int),
        decreases rules@.len() - i,
    {
        rest.push(rules[i]);
        proof {
            assert(rest@ =~= rules@.take(i + 1));
        }
        i += 1;
    }
    proof {
        assert(rest@ =~= rules@);
    }
    let mut out: Vec<RewriteRule> = Vec::new();
    while rest.len() > 0
        invariant
            out@.len() + rest@.len() == rules@.len(),
            forall|x: RewriteRule|
                rules@.contains(x) <==> (out@.contains(x) || rest@.contains(x)),
            strictly_increasing_columns(out@),
            forall|a: int, b: int|
                0 <= a < out@.len() && 0 <= b < rest@.len() ==> out@[a].column < rest@[b].column,
            all_distinct(columns_of(rest@)),
        decreases rest@.len(),
    {
        let m = min_column_index(&rest);
        let ghost old_out = out@;
        let ghost old_rest = rest@;
        let x = rest.remove(m);
        out.push(x);
        proof {
            old_rest.remove_ensures(m as int);
            assert(x == old_rest[m as int]);
            // every rule is still accounted for on exactly one side
            assert forall|y: RewriteRule|
                rules@.contains(y) implies (out@.contains(y) || rest@.contains(y)) by {
                if old_out.contains(y) {
                    let a = choose|a: int| 0 <= a < old_out.len() && old_out[a] == y;
                    assert(out@[a] == y);
                } else {
                    let a = choose|a: int| 0 <= a < old_rest.len() && old_rest[a] == y;
                    if a == m {
                        assert(out@[out@.len() - 1] == y);
                    } else if a < m {
                        assert(rest@[a] == y);
                    } else {
                        assert(rest@[a - 1] == y);
                    }
                }
            }
            assert forall|y: RewriteRule|
                (out@.contains(y) || rest@.contains(y)) implies rules@.contains(y) by {
                if out@.contains(y) {
                    let a = choose|a: int| 0 <= a < out@.len() && out@[a] == y;
                    if a < old_out.len() {
                        assert(old_out[a] == y);
                    } else {
                        assert(old_rest.contains(y)) by {
                            assert(old_rest[m as int] == y);
                        }
                    }
                } else {
                    let a = choose|a: int| 0 <= a < rest@.len() && rest@[a] == y;
                    if a < m {
                        assert(old_rest[a] == y);
                    } else {
                        assert(old_rest[a + 1] == y);
                    }
                }
            }
            // the extracted minimum sits strictly between out and the rest
            assert forall|b: int| 0 <= b < rest@.len() implies x.column < rest@[b].column by {
                let b0: int = if b < m { b } else { b + 1 };
                assert(old_rest[b0] == rest@[b]);
                assert(columns_of(old_rest)[m as int] == old_rest[m as int].column);
                assert(columns_of(old_rest)[b0] == old_rest[b0].column);
                assert(old_rest[m as int].column != old_rest[b0].column);
            }
            assert(strictly_increasing_columns(out@));
            assert forall|a: int, b: int|
                0 <= a < b < rest@.len() implies columns_of(rest@)[a] != columns_of(rest@)[b] by {
                let a0: int = if a < m { a } else { a + 1 };
                let b0: int = if b < m { b } else { b + 1 };
                assert(old_rest[a0] == rest@[a]);
                assert(old_rest[b0] == rest@[b]);
                assert(columns_of(old_rest)[a0] == old_rest[a0].column);
                assert(columns_of(old_rest)[b0] == old_rest[b0].column);
                assert(columns_of(rest@)[a] == rest@[a].column);
                assert(columns_of(rest@)[b] == rest@[b].column);
            }
        }
    }
    proof {
        assert forall|x: RewriteRule| out@.contains(x) <==> rules@.contains(x) by {
            assert(!rest@.contains(x));
        }
    }
    out
}

} // verus!
