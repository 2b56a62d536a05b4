use anon_csv::{
    anonymise, parse_spec, rewrite_records, sorted_by_column, validated, AnonError, Category,
    RewriteInfo, RewriteRule, SubstitutionCache, ValueGenerator,
};

/// A deterministic stand-in for a synthetic-value backend: the n-th fresh
/// value is `v<n>`, whatever the category.
struct CountingGen {
    calls: u64,
}

impl ValueGenerator for CountingGen {
    fn generate(&mut self, _kind: Category) -> String {
        self.calls += 1;
        format!("v{}", self.calls)
    }
}

fn fresh() -> CountingGen {
    CountingGen { calls: 0 }
}

fn rule(column: usize, kind: Category) -> RewriteRule {
    RewriteRule { column, kind }
}

fn run(
    input: &str,
    delimiter: u8,
    has_header: bool,
    rules: &[RewriteRule],
) -> Result<(String, RewriteInfo), AnonError> {
    let mut gen = fresh();
    let bytes: Vec<u8> = input.as_bytes().to_vec();
    let rules: Vec<RewriteRule> = rules.to_vec();
    anonymise(&bytes, delimiter, has_header, &rules, &mut gen)
        .map(|(out, stats)| (String::from_utf8(out).unwrap(), stats))
}

#[test]
fn end_to_end_example() {
    let input = "id,name,email\n1,Alice,alice@x.com\n2,Bob,bob@x.com\n1,Alice,alice@x.com\n";
    let rules = [rule(2, Category::SafeEmail)];
    let (out, stats) = run(input, b',', true, &rules).unwrap();
    assert_eq!(out, "id,name,email\n1,Alice,v1\n2,Bob,v2\n1,Alice,v1\n");
    assert_eq!(stats, RewriteInfo { rows: 3, cells: 3 });
}

#[test]
fn same_text_same_substitute_across_columns() {
    // memoization keys on the raw text alone, not on the category
    let input = "x,x\n";
    let rules = [rule(0, Category::FirstName), rule(1, Category::SafeEmail)];
    let mut gen = fresh();
    let bytes = input.as_bytes().to_vec();
    let rules_vec: Vec<RewriteRule> = rules.to_vec();
    let (out, _) = anonymise(&bytes, b',', false, &rules_vec, &mut gen).unwrap();
    assert_eq!(String::from_utf8(out).unwrap(), "v1,v1\n");
    assert_eq!(gen.calls, 1);
}

#[test]
fn untargeted_fields_pass_through() {
    let input = "a,b,c\n";
    let rules = [rule(1, Category::FullName)];
    let (out, stats) = run(input, b',', false, &rules).unwrap();
    assert_eq!(out, "a,v1,c\n");
    assert_eq!(stats, RewriteInfo { rows: 1, cells: 1 });
}

#[test]
fn duplicate_columns_rejected() {
    let rules = vec![
        rule(1, Category::FullName),
        rule(2, Category::SafeEmail),
        rule(1, Category::LastName),
    ];
    assert_eq!(
        validated(&rules),
        Err(AnonError::DuplicateColumns { duplicates: 1 })
    );
}

#[test]
fn duplicate_columns_rejected_before_any_parse() {
    // the input is malformed, but validation fails first
    let input = "a,b\nc\n";
    let rules = [rule(0, Category::Zip), rule(0, Category::Zip)];
    assert_eq!(
        run(input, b',', false, &rules),
        Err(AnonError::DuplicateColumns { duplicates: 1 })
    );
}

#[test]
fn out_of_range_column_reported() {
    let input = "a,b,c\nd,e,f\n";
    let rules = [rule(5, Category::Zip)];
    assert_eq!(
        run(input, b',', false, &rules),
        Err(AnonError::ColumnOutOfRange { column: 5, row_field_count: 3 })
    );
}

#[test]
fn counters_count_rows_and_cells() {
    let input = "a,b,c\nd,e,f\ng,h,i\nj,k,l\n";
    let rules = [rule(0, Category::FirstName), rule(2, Category::LastName)];
    let (_, stats) = run(input, b',', false, &rules).unwrap();
    assert_eq!(stats, RewriteInfo { rows: 4, cells: 8 });
}

#[test]
fn rules_apply_in_ascending_column_order() {
    let input = "a,b,c\n";
    let rules = [rule(2, Category::Zip), rule(0, Category::Zip)];
    let (out, _) = run(input, b',', false, &rules).unwrap();
    assert_eq!(out, "v1,b,v2\n");
}

#[test]
fn header_not_rewritten_and_not_counted() {
    let input = "secret,other\nsecret,x\n";
    let rules = [rule(0, Category::FullName)];
    let (out, stats) = run(input, b',', true, &rules).unwrap();
    assert_eq!(out, "secret,other\nsecret,x\n".replace("secret,x", "v1,x"));
    assert_eq!(stats, RewriteInfo { rows: 1, cells: 1 });
}

#[test]
fn no_rules_passes_everything_through() {
    let input = "a,b\nc,d\n";
    let (out, stats) = run(input, b',', false, &[]).unwrap();
    assert_eq!(out, "a,b\nc,d\n");
    assert_eq!(stats, RewriteInfo { rows: 2, cells: 0 });
}

#[test]
fn empty_input_with_header_flag() {
    let (out, stats) = run("", b',', true, &[rule(0, Category::Zip)]).unwrap();
    assert_eq!(out, "");
    assert_eq!(stats, RewriteInfo { rows: 0, cells: 0 });
}

#[test]
fn unequal_row_lengths_are_a_parse_error() {
    let input = "a,b\nc\n";
    assert_eq!(
        run(input, b',', false, &[rule(0, Category::Zip)]),
        Err(AnonError::SourceParse)
    );
}

#[test]
fn other_delimiter() {
    let input = "a;b\nc;d\n";
    let rules = [rule(1, Category::SafeEmail)];
    let (out, stats) = run(input, b';', false, &rules).unwrap();
    assert_eq!(out, "a;v1\nc;v1\n".replace("c;v1", "c;v2"));
    assert_eq!(stats, RewriteInfo { rows: 2, cells: 2 });
}

#[test]
fn quoted_fields_survive_the_codec() {
    let input = "a,\"b,c\"\n";
    let rules = [rule(0, Category::FullName)];
    let (out, _) = run(input, b',', false, &rules).unwrap();
    assert_eq!(out, "v1,\"b,c\"\n");
}

#[test]
fn substitution_changes_targeted_cells() {
    // the run must not hand the input back unchanged
    let input = "alice@x.com\n";
    let rules = [rule(0, Category::SafeEmail)];
    let (out, _) = run(input, b',', false, &rules).unwrap();
    assert_eq!(out, "v1\n");
    assert_ne!(out, input);
}

#[test]
fn parse_spec_accepts_each_category() {
    assert_eq!(
        parse_spec("3:Internet.safe_email"),
        Ok(rule(3, Category::SafeEmail))
    );
    assert_eq!(parse_spec("0:Name.name"), Ok(rule(0, Category::FullName)));
    assert_eq!(parse_spec("1:Name.first_name"), Ok(rule(1, Category::FirstName)));
    assert_eq!(parse_spec("2:Name.last_name"), Ok(rule(2, Category::LastName)));
    assert_eq!(parse_spec("12:Address.zip"), Ok(rule(12, Category::Zip)));
}

#[test]
fn parse_spec_rejects_malformed_descriptions() {
    assert_eq!(parse_spec("Name.name"), Err(AnonError::RuleParse));
    assert_eq!(parse_spec(":Name.name"), Err(AnonError::RuleParse));
    assert_eq!(parse_spec("3:"), Err(AnonError::RuleParse));
    assert_eq!(parse_spec("3:Nope.nope"), Err(AnonError::RuleParse));
    assert_eq!(parse_spec("x3:Name.name"), Err(AnonError::RuleParse));
    assert_eq!(parse_spec("-1:Name.name"), Err(AnonError::RuleParse));
    assert_eq!(
        parse_spec("99999999999999999999999:Name.name"),
        Err(AnonError::RuleParse)
    );
    assert_eq!(parse_spec(""), Err(AnonError::RuleParse));
}

#[test]
fn validated_accepts_distinct_columns() {
    let rules = vec![rule(3, Category::Zip), rule(0, Category::FullName)];
    assert_eq!(validated(&rules), Ok(()));
}

#[test]
fn cache_reuse_spans_the_whole_run() {
    // the same raw text in row 1 and row 4, in different columns
    let input = "k,a\nb,c\nd,e\nf,k\n";
    let rules = [rule(0, Category::FirstName), rule(1, Category::LastName)];
    let (out, _) = run(input, b',', false, &rules).unwrap();
    // k -> v1 everywhere; the six other distinct texts each get a fresh value
    assert_eq!(out, "v1,v2\nv3,v4\nv5,v6\nv7,v1\n");
}

#[test]
fn parsed_rule_drives_a_run() {
    let r = parse_spec("1:Internet.safe_email").unwrap();
    let (out, _) = run("a,b\n", b',', false, &[r]).unwrap();
    assert_eq!(out, "a,v1\n");
}

#[test]
fn one_cache_spans_several_engine_calls() {
    let rules = vec![rule(0, Category::Zip)];
    let sorted = sorted_by_column(&rules);
    let mut cache = SubstitutionCache::new();
    let mut gen = fresh();
    let recs1 = vec![vec!["a".to_string()]];
    let recs2 = vec![vec!["a".to_string()]];
    let (out1, _) = rewrite_records(&recs1, &sorted, &mut cache, &mut gen).unwrap();
    let (out2, _) = rewrite_records(&recs2, &sorted, &mut cache, &mut gen).unwrap();
    assert_eq!(out1, out2);
    assert_eq!(gen.calls, 1);
}
