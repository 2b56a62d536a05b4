//! The streaming rewrite engine: consumes validated rules and a record
//! stream, replaces each targeted cell by a memoized synthetic value, and
//! passes every other field through byte-identical.

use vstd::prelude::*;

use crate::cache::SubstitutionCache;
use crate::codec::{csv_encoding_of, csv_rows_of, read_rows, write_rows};
use crate::errors::AnonError;
use crate::rules::{
    all_distinct, columns_of, distinct_count, sorted_by_column, strictly_increasing_columns,
    validated, Category, RewriteRule,
};

verus! {

/// Counters accumulated over one run: records processed and cell
/// substitutions performed. The header, when present, counts for neither.
#[derive(Clone, Copy, Debug, PartialEq, Eq, Structural)]
pub struct RewriteInfo {
    pub rows: u64,
    pub cells: u64,
}

/// A synthetic-value source: one call yields the replacement text for one
/// cache miss. An implementation may be non-deterministic; the engine's
/// memoization alone makes the output consistent within a run.
pub trait ValueGenerator {
    fn generate(&mut self, kind: Category) -> String;
}

/// Some rule targets field `j`.
pub open spec fn col_targeted(rules: Seq<RewriteRule>, j: int) -> bool {
    exists|k: int| 0 <= k < rules.len() && (#[trigger] rules[k].column) == j
}

/// Every rule's column exists in a row of this shape.
pub open spec fn row_fits(row: Seq<Seq<char>>, rules: Seq<RewriteRule>) -> bool {
    forall|k: int| 0 <= k < rules.len() ==> (#[trigger] rules[k].column) < row.len()
}

/// The rewritten image of one row under a substitution mapping: targeted
/// fields carry the mapping's value for their raw text, all others are
/// unchanged.
pub open spec fn rewritten_row(
    row: Seq<Seq<char>>,
    rules: Seq<RewriteRule>,
    subst: Map<Seq<char>, Seq<char>>,
) -> Seq<Seq<char>> {
    Seq::new(
        row.len(),
        |j: int|
            if col_targeted(rules, j) {
                subst[row[j]]
            } else {
                row[j]
            },
    )
}

/// `c` is the column a run reports for a row of `n` fields: a targeted
/// column the row lacks, and the smallest such.
pub open spec fn is_min_missing_column(rules: Seq<RewriteRule>, n: int, c: int) -> bool {
    &&& col_targeted(rules, c)
    &&& c >= n
    &&& forall|k: int|
        0 <= k < rules.len() && (#[trigger] rules[k].column) >= n ==> rules[k].column >= c
}

/// Rewrites one record. Targeted cells are replaced through the cache —
/// missing entries are filled from the generator first — and every other
/// field is copied through unchanged, in a single left-to-right pass.
pub fn rewrite_record<G: ValueGenerator>(
    record: &Vec<String>,
    rules: &Vec<RewriteRule>,
    cache: &mut SubstitutionCache,
    generator: &mut G,
) -> (r: Result<Vec<String>, AnonError>)
    requires
        old(cache).wf(),
        strictly_increasing_columns(rules@),
    ensures
        final(cache).wf(),
        old(cache)@.submap_of(final(cache)@),
        match r {
            Ok(out) => {
                &&& row_fits(record.deep_view(), rules@)
                &&& (forall|j: int|
                    0 <= j < record@.len() && col_targeted(rules@, j)
                        ==> final(cache)@.contains_key(record.deep_view()[j]))
                &&& out.deep_view() == rewritten_row(record.deep_view(), rules@, final(cache)@)
            },
            Err(e) => {
                &&& !row_fits(record.deep_view(), rules@)
                &&& (e matches AnonError::ColumnOutOfRange { column, row_field_count }
                    && is_min_missing_column(rules@, record@.len() as int, column as int)
                    && row_field_count == record@.len())
            },
        },
{
    let ghost row = record.deep_view();
    let n = record.len();
    let mut out: Vec<String> = Vec::new();
    let mut next: usize = 0;
    let mut k: usize = 0;
    while k < rules.len()
        invariant
            row == record.deep_view(),
            n == record@.len(),
            cache.wf(),
            old(cache)@.submap_of(cache@),
            strictly_increasing_columns(rules@),
            k <= rules@.len(),
            next <= n,
            out@.len() == next,
            forall|k2: int| 0 <= k2 < k ==> (#[trigger] rules@[k2].column) < next,
            forall|k2: int| k <= k2 < rules@.len() ==> (#[trigger] rules@[k2].column) >= next,
            forall|j: int|
                0 <= j < next && !col_targeted(rules@, j) ==> out.deep_view()[j] == row[j],
            forall|j: int|
                0 <= j < next && col_targeted(rules@, j) ==> cache@.contains_key(row[j])
                    && out.deep_view()[j] == cache@[row[j]],
        decreases rules@.len() - k,
    {
        let col = rules[k].column;
        if col >= n {
            proof {
                assert(!row_fits(row, rules@)) by {
                    assert(rules@[k as int].column >= row.len());
                }
                assert(col_targeted(rules@, col as int));
                assert forall|k2: int|
                    0 <= k2 < rules@.len() && (#[trigger] rules@[k2].column) >= n implies rules@[k2].column
                    >= col by {
                    if k2 < k {
                        assert(rules@[k2].column < next);
                    }
                }
            }
            return Err(AnonError::ColumnOutOfRange { column: col, row_field_count: n });
        }
        let ghost entry_next = next as int;
        while next < col
            invariant
                row == record.deep_view(),
                n == record@.len(),
                cache.wf(),
                old(cache)@.submap_of(cache@),
                strictly_increasing_columns(rules@),
                k < rules@.len(),
                col == rules@[k as int].column,
                col < n,
                entry_next <= next <= col,
                out@.len() == next,
                forall|k2: int| 0 <= k2 < k ==> (#[trigger] rules@[k2].column) < entry_next,
                forall|k2: int| k <= k2 < rules@.len() ==> (#[trigger] rules@[k2].column) >= col,
                forall|j: int|
                    0 <= j < next && !col_targeted(rules@, j) ==> out.deep_view()[j] == row[j],
                forall|j: int|
                    0 <= j < next && col_targeted(rules@, j) ==> cache@.contains_key(row[j])
                        && out.deep_view()[j] == cache@[row[j]],
            decreases col - next,
        {
            out.push(record[next].clone());
            proof {
                assert(!col_targeted(rules@, next as int)) by {
                    if col_targeted(rules@, next as int) {
                        let k2 = choose|k2: int|
                            0 <= k2 < rules@.len() && rules@[k2].column == next as int;
                        if k2 < k {
                            assert(rules@[k2].column < entry_next);
                        } else {
                            assert(rules@[k2].column >= col);
                        }
                    }
                }
                assert(out.deep_view()[next as int] == row[next as int]);
                assert forall|j: int| 0 <= j < next + 1 && !col_targeted(rules@, j) implies out.deep_view()[j]
                    == row[j] by {
                    if j < next {
                        assert(out.deep_view()[j] == out.deep_view().drop_last()[j]);
                    }
                }
            }
            next += 1;
        }
        let raw = &record[col];
        let ghost mid_cache = cache@;
        proof {
            assert(old(cache)@.submap_of(mid_cache));
        }
        let looked = cache.lookup(raw);
        let sub = match looked {
            Some(v) => v,
            None => {
                let fresh = generator.generate(rules[k].kind);
                cache.put(raw.clone(), fresh.clone());
                fresh
            },
        };
        proof {
            assert(mid_cache.submap_of(cache@)) by {
                assert forall|t: Seq<char>| mid_cache.dom().contains(t) implies cache@.dom().contains(
                    t,
                ) && mid_cache[t] == cache@[t] by {
                    if !mid_cache.contains_key(raw@) {
                        assert(t != raw@);
                    }
                }
            }
            vstd::map_lib::lemma_submap_of_trans(old(cache)@, mid_cache, cache@);
            assert(old(cache)@.submap_of(cache@));
            assert(cache@.contains_key(row[col as int]));
            assert(sub@ == cache@[row[col as int]]);
        }
        out.push(sub);
        proof {
            assert(col_targeted(rules@, col as int));
            assert(out.deep_view()[col as int] == cache@[row[col as int]]);
            assert forall|j: int|
                0 <= j < col + 1 && col_targeted(rules@, j) implies cache@.contains_key(row[j])
                && out.deep_view()[j] == cache@[row[j]] by {
                if j < col {
                    assert(out.deep_view()[j] == out.deep_view().drop_last()[j]);
                }
            }
            assert forall|j: int|
                0 <= j < col + 1 && !col_targeted(rules@, j) implies out.deep_view()[j] == row[j] by {
                if j < col {
                    assert(out.deep_view()[j] == out.deep_view().drop_last()[j]);
                }
            }
            assert forall|k2: int| k + 1 <= k2 < rules@.len() implies (#[trigger] rules@[k2].column)
                >= col + 1 by {
                assert(rules@[k as int].column < rules@[k2].column);
            }
        }
        next = col + 1;
        k += 1;
    }
    while next < n
        invariant
            row == record.deep_view(),
            n == record@.len(),
            cache.wf(),
            old(cache)@.submap_of(cache@),
            next <= n,
            out@.len() == next,
            forall|k2: int| 0 <= k2 < rules@.len() ==> (#[trigger] rules@[k2].column) < next,
            forall|j: int|
                0 <= j < next && !col_targeted(rules@, j) ==> out.deep_view()[j] == row[j],
            forall|j: int|
                0 <= j < next && col_targeted(rules@, j) ==> cache@.contains_key(row[j])
                    && out.deep_view()[j] == cache@[row[j]],
        decreases n - next,
    {
        let ghost before = next as int;
        out.push(record[next].clone());
        proof {
            assert(!col_targeted(rules@, before)) by {
                if col_targeted(rules@, before) {
                    let k2 = choose|k2: int|
                        0 <= k2 < rules@.len() && rules@[k2].column == before;
                }
            }
            assert(out.deep_view()[before] == row[before]);
            assert forall|j: int| 0 <= j < before + 1 && !col_targeted(rules@, j) implies out.deep_view()[j]
                == row[j] by {
                if j < before {
                    assert(out.deep_view()[j] == out.deep_view().drop_last()[j]);
                }
            }
            assert forall|j: int|
                0 <= j < before + 1 && col_targeted(rules@, j) implies cache@.contains_key(row[j])
                && out.deep_view()[j] == cache@[row[j]] by {
                if j < before {
                    assert(out.deep_view()[j] == out.deep_view().drop_last()[j]);
                }
            }
        }
        next += 1;
    }
    proof {
        assert(row_fits(row, rules@));
        assert(out.deep_view() =~= rewritten_row(row, rules@, cache@));
    }
    Ok(out)
}


/// Index of the first record that is too short for some rule, or -1 when
/// every record fits.
pub open spec fn first_bad_row(rows: Seq<Seq<Seq<char>>>, rules: Seq<RewriteRule>) -> int
    decreases rows.len(),
{
    if rows.len() == 0 {
        -1
    } else if !row_fits(rows.first(), rules) {
        0
    } else {
        let rest = first_bad_row(rows.drop_first(), rules);
        if rest == -1 {
            -1
        } else {
            rest + 1
        }
    }
}

proof fn lemma_first_bad_row_none(rows: Seq<Seq<Seq<char>>>, rules: Seq<RewriteRule>)
    requires
        forall|i: int| 0 <= i < rows.len() ==> row_fits(#[trigger] rows[i], rules),
    ensures
        first_bad_row(rows, rules) == -1,
    decreases rows.len(),
{
    if rows.len() > 0 {
        assert(rows[0] == rows.first());
        assert forall|i: int| 0 <= i < rows.drop_first().len() implies row_fits(
            #[trigger] rows.drop_first()[i],
            rules,
        ) by {
            assert(rows.drop_first()[i] == rows[i + 1]);
        }
        lemma_first_bad_row_none(rows.drop_first(), rules);
    }
}

proof fn lemma_first_bad_row_at(rows: Seq<Seq<Seq<char>>>, rules: Seq<RewriteRule>, m: int)
    requires
        0 <= m < rows.len(),
        !row_fits(rows[m], rules),
        forall|i: int| 0 <= i < m ==> row_fits(#[trigger] rows[i], rules),
    ensures
        first_bad_row(rows, rules) == m,
    decreases rows.len(),
{
    if m == 0 {
        assert(!row_fits(rows.first(), rules));
    } else {
        assert(row_fits(rows.first(), rules)) by {
            assert(rows[0] == rows.first());
        }
        assert forall|i: int| 0 <= i < m - 1 implies row_fits(
            #[trigger] rows.drop_first()[i],
            rules,
        ) by {
            assert(rows.drop_first()[i] == rows[i + 1]);
        }
        assert(rows.drop_first()[m - 1] == rows[m]);
        lemma_first_bad_row_at(rows.drop_first(), rules, m - 1);
    }
}

/// A rewritten row only reads the mapping at its targeted raw texts, so a
/// grown mapping that keeps those entries yields the same row.
proof fn lemma_rewritten_row_stable(
    row: Seq<Seq<char>>,
    rules: Seq<RewriteRule>,
    m1: Map<Seq<char>, Seq<char>>,
    m2: Map<Seq<char>, Seq<char>>,
)
    requires
        m1.submap_of(m2),
        forall|j: int|
            0 <= j < row.len() && col_targeted(rules, j) ==> m1.contains_key(#[trigger] row[j]),
    ensures
        rewritten_row(row, rules, m1) == rewritten_row(row, rules, m2),
{
    assert forall|j: int|
        0 <= j < row.len() implies rewritten_row(row, rules, m1)[j] == rewritten_row(
        row,
        rules,
        m2,
    )[j] by {
        if col_targeted(rules, j) {
            assert(m1.contains_key(row[j]));
            assert(m1.dom().contains(row[j]));
            assert(m2.dom().contains(row[j]) && m1[row[j]] == m2[row[j]]);
        }
    }
    assert(rewritten_row(row, rules, m1) =~= rewritten_row(row, rules, m2));
}

/// The cell counter a complete run reports: one substitution per rule per
/// record, saturating at the counter's width.
pub open spec fn spec_cells(nrows: int, nrules: int) -> int {
    if nrows * nrules <= u64::MAX {
        nrows * nrules
    } else {
        u64::MAX as int
    }
}

/// Rewrites a whole record stream in input order with one shared cache and
/// accumulates the run counters. The first record that is too short for
/// some rule aborts the run.
pub fn rewrite_records<G: ValueGenerator>(
    records: &Vec<Vec<String>>,
    rules: &Vec<RewriteRule>,
    cache: &mut SubstitutionCache,
    generator: &mut G,
) -> (r: Result<(Vec<Vec<String>>, RewriteInfo), AnonError>)
    requires
        old(cache).wf(),
        strictly_increasing_columns(rules@),
    ensures
        final(cache).wf(),
        old(cache)@.submap_of(final(cache)@),
        match r {
            Ok(p) => {
                &&& first_bad_row(records.deep_view(), rules@) == -1
                &&& p.0@.len() == records@.len()
                &&& (forall|i: int|
                    0 <= i < records@.len() ==> #[trigger] p.0.deep_view()[i] == rewritten_row(
                        records.deep_view()[i],
                        rules@,
                        final(cache)@,
                    ))
                &&& p.1.rows == records@.len()
                &&& p.1.cells == spec_cells(records@.len() as int, rules@.len() as int)
            },
            Err(e) => {
                let fb = first_bad_row(records.deep_view(), rules@);
                &&& 0 <= fb < records@.len()
                &&& (e matches AnonError::ColumnOutOfRange { column, row_field_count }
                    && is_min_missing_column(
                    rules@,
                    records.deep_view()[fb].len() as int,
                    column as int,
                ) && row_field_count == records.deep_view()[fb].len())
            },
        },
{
    let mut out: Vec<Vec<String>> = Vec::new();
    let mut i: usize = 0;
    while i < records.len()
        invariant
            cache.wf(),
            old(cache)@.submap_of(cache@),
            strictly_increasing_columns(rules@),
            i <= records@.len(),
            out@.len() == i,
            forall|i2: int| 0 <= i2 < i ==> row_fits(#[trigger] records.deep_view()[i2], rules@),
            forall|i2: int, j: int|
                0 <= i2 < i && 0 <= j < records.deep_view()[i2].len() && col_targeted(rules@, j)
                    ==> cache@.contains_key(#[trigger] records.deep_view()[i2][j]),
            forall|i2: int|
                0 <= i2 < i ==> #[trigger] out.deep_view()[i2] == rewritten_row(
                    records.deep_view()[i2],
                    rules@,
                    cache@,
                ),
        decreases records@.len() - i,
    {
        let rec = &records[i];
        let ghost pre = cache@;
        proof {
            assert(rec.deep_view() == records.deep_view()[i as int]);
        }
        match rewrite_record(rec, rules, cache, generator) {
            Ok(orow) => {
                proof {
                    vstd::map_lib::lemma_submap_of_trans(old(cache)@, pre, cache@);
                }
                let ghost old_dv = out.deep_view();
                let ghost old_vecview = out@;
                out.push(orow);
                proof {
                    assert forall|i2: int| 0 <= i2 < i + 1 implies #[trigger] out.deep_view()[i2]
                        == rewritten_row(records.deep_view()[i2], rules@, cache@) by {
                        let rowv = records.deep_view()[i2];
                        if i2 < i {
                            assert(out@[i2] == old_vecview[i2]);
                            assert(out.deep_view()[i2] == out@[i2].deep_view());
                            assert(old_dv[i2] == old_vecview[i2].deep_view());
                            assert(out.deep_view()[i2] == old_dv[i2]);
                            lemma_rewritten_row_stable(rowv, rules@, pre, cache@);
                        } else {
                            assert(out.deep_view()[i2] == orow.deep_view());
                        }
                    }
                    assert forall|i2: int, j: int|
                        0 <= i2 < i + 1 && 0 <= j < records.deep_view()[i2].len() && col_targeted(
                            rules@,
                            j,
                        ) implies cache@.contains_key(#[trigger] records.deep_view()[i2][j]) by {
                        if i2 < i {
                            assert(pre.contains_key(records.deep_view()[i2][j]));
                            assert(pre.submap_of(cache@));
                        }
                    }
                }
                i += 1;
            },
            Err(e) => {
                proof {
                    vstd::map_lib::lemma_submap_of_trans(old(cache)@, pre, cache@);
                    lemma_first_bad_row_at(records.deep_view(), rules@, i as int);
                }
                return Err(e);
            },
        }
    }
    proof {
        lemma_first_bad_row_none(records.deep_view(), rules@);
    }
    let rows_count: u64 = records.len() as u64;
    let cells_count: u64 = match rows_count.checked_mul(rules.len() as u64) {
        Some(c) => c,
        None => u64::MAX,
    };
    Ok((out, RewriteInfo { rows: rows_count, cells: cells_count }))
}


/// The header prefix of a parsed stream: its first record when a header
/// was requested and the stream has one, else nothing.
pub open spec fn header_rows(rows: Seq<Seq<Seq<char>>>, has_header: bool) -> Seq<Seq<Seq<char>>> {
    if has_header && rows.len() > 0 {
        rows.subrange(0, 1)
    } else {
        Seq::empty()
    }
}

/// The records a run processes: everything after the header prefix.
pub open spec fn body_rows(rows: Seq<Seq<Seq<char>>>, has_header: bool) -> Seq<Seq<Seq<char>>> {
    if has_header && rows.len() > 0 {
        rows.drop_first()
    } else {
        rows
    }
}

/// The records a complete run emits: the header unchanged, then every
/// processed record rewritten under one substitution mapping.
pub open spec fn output_rows(
    rows: Seq<Seq<Seq<char>>>,
    has_header: bool,
    rules: Seq<RewriteRule>,
    subst: Map<Seq<char>, Seq<char>>,
) -> Seq<Seq<Seq<char>>> {
    header_rows(rows, has_header) + Seq::new(
        body_rows(rows, has_header).len(),
        |i: int| rewritten_row(body_rows(rows, has_header)[i], rules, subst),
    )
}

/// What a run that got past validation, parsing and the range checks
/// returns, given the substitution mapping it built: the encoded output
/// rows and the two counters, or the sink's failure.
pub open spec fn anonymise_ok(
    rows: Seq<Seq<Seq<char>>>,
    has_header: bool,
    rules: Seq<RewriteRule>,
    delimiter: u8,
    subst: Map<Seq<char>, Seq<char>>,
    r: Result<(Vec<u8>, RewriteInfo), AnonError>,
) -> bool {
    match csv_encoding_of(output_rows(rows, has_header, rules, subst), delimiter) {
        Some(bytes) => r matches Ok(p) && p.0@ == bytes && p.1.rows == body_rows(
            rows,
            has_header,
        ).len() && p.1.cells == spec_cells(
            body_rows(rows, has_header).len() as int,
            rules.len() as int,
        ),
        None => r == Err::<(Vec<u8>, RewriteInfo), AnonError>(AnonError::SinkWrite),
    }
}

/// Two rule sequences with the same rules target the same columns, fit the
/// same rows, and report the same missing column.
proof fn lemma_rules_same_targets(r1: Seq<RewriteRule>, r2: Seq<RewriteRule>)
    requires
        forall|x: RewriteRule| r1.contains(x) <==> r2.contains(x),
    ensures
        forall|j: int|
            #![trigger col_targeted(r1, j)]
            #![trigger col_targeted(r2, j)]
            col_targeted(r1, j) <==> col_targeted(r2, j),
        forall|row: Seq<Seq<char>>|
            #![trigger row_fits(row, r1)]
            #![trigger row_fits(row, r2)]
            row_fits(row, r1) <==> row_fits(row, r2),
        forall|n: int, c: int|
            #![trigger is_min_missing_column(r1, n, c)]
            #![trigger is_min_missing_column(r2, n, c)]
            is_min_missing_column(r1, n, c) <==> is_min_missing_column(r2, n, c),
{
    assert forall|j: int|
        #![trigger col_targeted(r1, j)]
        #![trigger col_targeted(r2, j)]
        col_targeted(r1, j) <==> col_targeted(r2, j) by {
        if col_targeted(r1, j) {
            let k = choose|k: int| 0 <= k < r1.len() && r1[k].column == j;
            assert(r1.contains(r1[k]));
            let k2 = choose|k2: int| 0 <= k2 < r2.len() && r2[k2] == r1[k];
            assert(r2[k2].column == j);
        }
        if col_targeted(r2, j) {
            let k = choose|k: int| 0 <= k < r2.len() && r2[k].column == j;
            assert(r2.contains(r2[k]));
            let k2 = choose|k2: int| 0 <= k2 < r1.len() && r1[k2] == r2[k];
            assert(r1[k2].column == j);
        }
    }
    assert forall|row: Seq<Seq<char>>|
        #![trigger row_fits(row, r1)]
        #![trigger row_fits(row, r2)]
        row_fits(row, r1) <==> row_fits(row, r2) by {
        if row_fits(row, r1) {
            assert forall|k: int| 0 <= k < r2.len() implies (#[trigger] r2[k].column)
                < row.len() by {
                assert(r2.contains(r2[k]));
                let k2 = choose|k2: int| 0 <= k2 < r1.len() && r1[k2] == r2[k];
                assert(r1[k2].column < row.len());
            }
        }
        if row_fits(row, r2) {
            assert forall|k: int| 0 <= k < r1.len() implies (#[trigger] r1[k].column)
                < row.len() by {
                assert(r1.contains(r1[k]));
                let k2 = choose|k2: int| 0 <= k2 < r2.len() && r2[k2] == r1[k];
                assert(r2[k2].column < row.len());
            }
        }
    }
    assert forall|n: int, c: int|
        #![trigger is_min_missing_column(r1, n, c)]
        #![trigger is_min_missing_column(r2, n, c)]
        is_min_missing_column(r1, n, c) <==> is_min_missing_column(r2, n, c) by {
        if is_min_missing_column(r1, n, c) {
            assert forall|k: int|
                0 <= k < r2.len() && (#[trigger] r2[k].column) >= n implies r2[k].column >= c by {
                assert(r2.contains(r2[k]));
                let k2 = choose|k2: int| 0 <= k2 < r1.len() && r1[k2] == r2[k];
                assert(r1[k2].column >= c);
            }
        }
        if is_min_missing_column(r2, n, c) {
            assert forall|k: int|
                0 <= k < r1.len() && (#[trigger] r1[k].column) >= n implies r1[k].column >= c by {
                assert(r1.contains(r1[k]));
                let k2 = choose|k2: int| 0 <= k2 < r2.len() && r2[k2] == r1[k];
                assert(r2[k2].column >= c);
            }
        }
    }
}

/// The first too-short record is the same under rule sequences that fit
/// the same rows.
proof fn lemma_first_bad_row_congruence(
    rows: Seq<Seq<Seq<char>>>,
    r1: Seq<RewriteRule>,
    r2: Seq<RewriteRule>,
)
    requires
        forall|row: Seq<Seq<char>>|
            #![trigger row_fits(row, r1)]
            #![trigger row_fits(row, r2)]
            row_fits(row, r1) <==> row_fits(row, r2),
    ensures
        first_bad_row(rows, r1) == first_bad_row(rows, r2),
    decreases rows.len(),
{
    if rows.len() > 0 {
        assert(row_fits(rows.first(), r1) == row_fits(rows.first(), r2));
        lemma_first_bad_row_congruence(rows.drop_first(), r1, r2);
    }
}

/// A row rewrites the same way under rule sequences that target the same
/// columns.
proof fn lemma_rewritten_row_same_targets(
    row: Seq<Seq<char>>,
    r1: Seq<RewriteRule>,
    r2: Seq<RewriteRule>,
    subst: Map<Seq<char>, Seq<char>>,
)
    requires
        forall|j: int|
            #![trigger col_targeted(r1, j)]
            #![trigger col_targeted(r2, j)]
            col_targeted(r1, j) <==> col_targeted(r2, j),
    ensures
        rewritten_row(row, r1, subst) == rewritten_row(row, r2, subst),
{
    assert(rewritten_row(row, r1, subst) =~= rewritten_row(row, r2, subst));
}

/// An exact copy of one record.
fn clone_row(row: &Vec<String>) -> (res: Vec<String>)
    ensures
        res@ == row@,
{
    let mut res: Vec<String> = Vec::new();
    let mut i: usize = 0;
    while i < row.len()
        invariant
            i <= row@.len(),
            res@ == row@.take(i as int),
        decreases row@.len() - i,
    {
        res.push(row[i].clone());
        proof {
            assert(res@ =~= row@.take(i + 1));
        }
        i += 1;
    }
    proof {
        assert(res@ =~= row@);
    }
    res
}

/// One complete run: validate the rules, decode the input bytes, pass the
/// header through, rewrite every record with one fresh cache, encode the
/// result, and report the counters. A run either completes in full or
/// returns exactly one error.
pub fn anonymise<G: ValueGenerator>(
    input: &Vec<u8>,
    delimiter: u8,
    has_header: bool,
    rules: &Vec<RewriteRule>,
    generator: &mut G,
) -> (r: Result<(Vec<u8>, RewriteInfo), AnonError>)
    ensures
        !all_distinct(columns_of(rules@)) ==> r == Err::<(Vec<u8>, RewriteInfo), AnonError>(
            AnonError::DuplicateColumns {
                duplicates: (rules@.len() - distinct_count(columns_of(rules@))) as usize,
            },
        ),
        all_distinct(columns_of(rules@)) && csv_rows_of(input@, delimiter) is None ==> r
            == Err::<(Vec<u8>, RewriteInfo), AnonError>(AnonError::SourceParse),
        all_distinct(columns_of(rules@)) ==> (csv_rows_of(input@, delimiter) matches Some(rows)
            ==> ({
            let body = body_rows(rows, has_header);
            let fb = first_bad_row(body, rules@);
            if fb >= 0 {
                r matches Err(e) && (e matches AnonError::ColumnOutOfRange {
                    column,
                    row_field_count,
                } && is_min_missing_column(rules@, body[fb].len() as int, column as int)
                    && row_field_count == body[fb].len())
            } else {
                exists|subst: Map<Seq<char>, Seq<char>>|
                    anonymise_ok(rows, has_header, rules@, delimiter, subst, r)
            }
        })),
{
    match validated(rules) {
        Ok(()) => (),
        Err(e) => {
            return Err(e);
        },
    }
    let sorted = sorted_by_column(rules);
    proof {
        lemma_rules_same_targets(sorted@, rules@);
    }
    let rows_vec = match read_rows(input, delimiter) {
        Ok(v) => v,
        Err(e) => {
            return Err(e);
        },
    };
    let ghost rows = rows_vec.deep_view();
    let has_header_row = has_header && rows_vec.len() > 0;
    let start: usize = if has_header_row {
        1
    } else {
        0
    };
    let mut body_vec: Vec<Vec<String>> = Vec::new();
    let mut i: usize = start;
    while i < rows_vec.len()
        invariant
            rows == rows_vec.deep_view(),
            start <= i <= rows_vec@.len() || (start == i && rows_vec@.len() == 0),
            start <= 1,
            body_vec@.len() == i - start,
            forall|t: int|
                0 <= t < i - start ==> #[trigger] body_vec.deep_view()[t] == rows_vec.deep_view()[t
                    + start],
        decreases rows_vec@.len() - i,
    {
        let ghost old_bdv = body_vec.deep_view();
        let ghost old_bview = body_vec@;
        let row_copy = clone_row(&rows_vec[i]);
        proof {
            assert(row_copy.deep_view() =~= rows_vec.deep_view()[i as int]);
        }
        body_vec.push(row_copy);
        proof {
            assert forall|t: int|
                0 <= t < i + 1 - start implies #[trigger] body_vec.deep_view()[t]
                == rows_vec.deep_view()[t + start] by {
                if t < i - start {
                    assert(body_vec@[t] == old_bview[t]);
                    assert(body_vec.deep_view()[t] == body_vec@[t].deep_view());
                    assert(old_bdv[t] == old_bview[t].deep_view());
                } else {
                    assert(body_vec@[t] == row_copy);
                }
            }
        }
        i += 1;
    }
    let ghost body = body_rows(rows, has_header);
    proof {
        assert(body_vec.deep_view() =~= body);
    }
    let mut cache = SubstitutionCache::new();
    let run = rewrite_records(&body_vec, &sorted, &mut cache, generator);
    let (rewritten, stats) = match run {
        Ok(p) => p,
        Err(e) => {
            proof {
                lemma_first_bad_row_congruence(body, sorted@, rules@);
            }
            return Err(e);
        },
    };
    proof {
        lemma_first_bad_row_congruence(body, sorted@, rules@);
    }
    let mut out_vec: Vec<Vec<String>> = Vec::new();
    if has_header_row {
        let header_copy = clone_row(&rows_vec[0]);
        proof {
            assert(header_copy.deep_view() =~= rows_vec.deep_view()[0]);
        }
        out_vec.push(header_copy);
    }
    let ghost head_count = out_vec@.len() as int;
    let ghost head_view = out_vec@;
    let mut tail = rewritten;
    let ghost tail_view = tail@;
    let ghost tail_dv = tail.deep_view();
    out_vec.append(&mut tail);
    proof {
        assert(out_vec@ == head_view + tail_view);
        assert forall|t: int| 0 <= t < body.len() implies #[trigger] tail_dv[t] == rewritten_row(
            body[t],
            rules@,
            cache@,
        ) by {
            assert(tail_dv[t] == rewritten_row(body[t], sorted@, cache@));
            lemma_rewritten_row_same_targets(body[t], sorted@, rules@, cache@);
        }
        assert(out_vec.deep_view() =~= output_rows(rows, has_header, rules@, cache@)) by {
            assert forall|t: int| 0 <= t < out_vec@.len() implies #[trigger] out_vec.deep_view()[t]
                == output_rows(rows, has_header, rules@, cache@)[t] by {
                assert(out_vec.deep_view()[t] == out_vec@[t].deep_view());
                if t < head_count {
                    assert(out_vec@[t] == head_view[t]);
                } else {
                    assert(out_vec@[t] == tail_view[t - head_count]);
                    assert(tail_dv[t - head_count] == tail_view[t - head_count].deep_view());
                }
            }
        }
    }
    let bytes = match write_rows(&out_vec, delimiter) {
        Ok(b) => b,
        Err(e) => {
            proof {
                assert(anonymise_ok(rows, has_header, rules@, delimiter, cache@, Err::<(
                    Vec<u8>,
                    RewriteInfo,
                ), AnonError>(AnonError::SinkWrite)));
            }
            return Err(e);
        },
    };
    let out = Ok((bytes, stats));
    proof {
        assert(anonymise_ok(rows, has_header, rules@, delimiter, cache@, out));
    }
    out
}


/// Law: within one run, any two targeted cells that hold the same raw
/// text are replaced by the same substitute text, wherever they occur —
/// in different records or different columns.
pub proof fn lemma_idempotent_mapping(
    rows: Seq<Seq<Seq<char>>>,
    rules: Seq<RewriteRule>,
    subst: Map<Seq<char>, Seq<char>>,
    i1: int,
    j1: int,
    i2: int,
    j2: int,
)
    requires
        0 <= i1 < rows.len(),
        0 <= i2 < rows.len(),
        0 <= j1 < rows[i1].len(),
        0 <= j2 < rows[i2].len(),
        col_targeted(rules, j1),
        col_targeted(rules, j2),
        rows[i1][j1] == rows[i2][j2],
    ensures
        rewritten_row(rows[i1], rules, subst)[j1] == rewritten_row(rows[i2], rules, subst)[j2],
{
}

/// Law: a rewritten record has the same field count as its input, and
/// every field no rule targets is byte-identical to the input.
pub proof fn lemma_structural_fidelity(
    row: Seq<Seq<char>>,
    rules: Seq<RewriteRule>,
    subst: Map<Seq<char>, Seq<char>>,
)
    ensures
        rewritten_row(row, rules, subst).len() == row.len(),
        forall|j: int|
            0 <= j < row.len() && !col_targeted(rules, j) ==> #[trigger] rewritten_row(
                row,
                rules,
                subst,
            )[j] == row[j],
{
}

} // verus!
