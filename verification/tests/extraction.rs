use linkgraph::extractor::{extract_line, find_dump, find_dumps, pattern_outcome, row_from_groups, row_pattern, DumpError, DumpFault, PatternError, Table};

fn rows_of(table: Table, line: &str) -> (Vec<String>, Vec<String>) {
    let re = table.regex().unwrap();
    let out = extract_line(table, &re, line.as_bytes());
    let text = |rows: Vec<Vec<u8>>| rows.into_iter().map(|r| String::from_utf8(r).unwrap()).collect();
    (text(out.rows), text(out.failed))
}

fn groups(fields: &[Option<&str>]) -> Vec<Option<Vec<u8>>> {
    fields.iter().map(|f| f.map(|s| s.as_bytes().to_vec())).collect()
}

#[test]
fn table_names_and_files() {
    assert_eq!(Table::Page.name(), "page");
    assert_eq!(Table::Pagelinks.name(), "pagelinks");
    assert_eq!(Table::Redirect.name(), "redirect");
    assert_eq!(Table::Page.target_file(), "data/page.csv");
    assert_eq!(Table::Pagelinks.target_file(), "data/pagelinks.csv");
    assert_eq!(Table::Redirect.target_file(), "data/redirect.csv");
}

#[test]
fn table_fields() {
    assert_eq!(Table::Page.rows(), vec![0, 2, 4]);
    assert_eq!(Table::Pagelinks.rows(), vec![0, 2]);
    assert_eq!(Table::Redirect.rows(), vec![0, 2]);
    assert_eq!(Table::Page.namespace_rows(), vec![1]);
    assert_eq!(Table::Pagelinks.namespace_rows(), vec![1, 3]);
    assert_eq!(Table::Redirect.namespace_rows(), vec![1]);
}

#[test]
fn table_patterns_compile() {
    for table in [Table::Page, Table::Pagelinks, Table::Redirect] {
        let re = table.regex().unwrap();
        assert_eq!(re.as_str(), table.pattern());
        assert!(table.pattern().starts_with("^([0-9]+),(-?[0-9]+),"));
    }
    assert_eq!(Table::Page.regex().unwrap().captures_len(), 14);
    assert_eq!(Table::Redirect.regex().unwrap().captures_len(), 6);
    assert_eq!(Table::Pagelinks.regex().unwrap().captures_len(), 5);
}

#[test]
fn page_rows_are_extracted() {
    let line = "INSERT INTO `page` VALUES (1,0,'A','',0,0,0.5,'20200101','20200102',10,100,'wikitext',NULL),\
                (2,0,'B_C','',1,0,0.25,'x','y',11,200,'wikitext',NULL),\
                (3,1,'Talk','',0,0,0.1,'x','y',12,300,'wikitext',NULL);";
    let (rows, failed) = rows_of(Table::Page, line);
    assert_eq!(rows, vec!["1\t'A'\t0", "2\t'B_C'\t1"]);
    assert!(failed.is_empty());
}

#[test]
fn pagelinks_rows_are_extracted() {
    let line = "INSERT INTO `pagelinks` VALUES (1,0,'B',0),(1,0,'C',0),(2,1,'D',0),(2,0,'E',1),(3,0,'F',0);";
    let (rows, failed) = rows_of(Table::Pagelinks, line);
    assert_eq!(rows, vec!["1\t'B'", "1\t'C'", "3\t'F'"]);
    assert!(failed.is_empty());
}

#[test]
fn redirect_rows_are_extracted() {
    let line = "INSERT INTO `redirect` VALUES (5,0,'D','',''),(6,0,'X',NULL,'part'),(7,2,'Y','','');";
    let (rows, failed) = rows_of(Table::Redirect, line);
    assert_eq!(rows, vec!["5\t'D'", "6\t'X'"]);
    assert!(failed.is_empty());
}

#[test]
fn other_lines_give_nothing() {
    for line in [
        "",
        "-- MySQL dump",
        "CREATE TABLE `pagelinks` (",
        "INSERT INTO `page` VALUES (1,0,'B',0);",
        " INSERT INTO `pagelinks` VALUES (1,0,'B',0);",
        "INSERT INTO `pagelinks` VALUES ",
        "INSERT INTO `pagelinks` VALUES ()",
    ] {
        let (rows, failed) = rows_of(Table::Pagelinks, line);
        assert!(rows.is_empty() && failed.is_empty());
    }
}

#[test]
fn rows_that_do_not_match_are_handed_back() {
    let line = "INSERT INTO `pagelinks` VALUES (1,0,'B',0),(oops),(2,0,'C'),(3,0,'D',0);";
    let (rows, failed) = rows_of(Table::Pagelinks, line);
    assert_eq!(rows, vec!["1\t'B'", "3\t'D'"]);
    assert_eq!(failed, vec!["oops", "2,0,'C'"]);
    let (rows, failed) = rows_of(Table::Pagelinks, "INSERT INTO `pagelinks` VALUES ();");
    assert!(rows.is_empty());
    assert_eq!(failed, vec![""]);
}

#[test]
fn brackets_in_a_title_break_the_row() {
    let line = "INSERT INTO `pagelinks` VALUES (362495,0,'Seesterne_(Klasse),(Art),(Gattung)',101),(1,0,'B',0);";
    let (rows, failed) = rows_of(Table::Pagelinks, line);
    assert_eq!(rows, vec!["1\t'B'"]);
    assert_eq!(failed, vec!["362495,0,'Seesterne_(Klasse", "Art", "Gattung)',101"]);
}

#[test]
fn escaped_en_dash_becomes_a_hyphen() {
    let line = "INSERT INTO `pagelinks` VALUES (1,0,'A\\xe2\\x80\\x93B',0),(2,0,'\\xe2\\x80\\x93\\xe2\\x80\\x93',0),(3,0,'C\\xe2\\x80\\x94D',0);";
    let (rows, _) = rows_of(Table::Pagelinks, line);
    assert_eq!(rows, vec!["1\t'A-B'", "2\t'--'", "3\t'C\\xe2\\x80\\x94D'"]);
}

#[test]
fn rows_end_at_the_second_values() {
    let line = "INSERT INTO `pagelinks` VALUES (1,0,'B',0),(2,0,'C',0); VALUES (3,0,'D',0);";
    let (rows, failed) = rows_of(Table::Pagelinks, line);
    assert_eq!(rows, vec!["1\t'B'", "2\t'C'"]);
    assert!(failed.is_empty());
}

#[test]
fn titles_with_quotes_and_other_scripts() {
    let line = "INSERT INTO `pagelinks` VALUES (1,0,'O\\'Brien',0),(2,0,'Zürich',0),(3,0,'東京',0),(4,0,NULL,0);";
    let (rows, failed) = rows_of(Table::Pagelinks, line);
    assert_eq!(rows, vec!["1\t'O\\'Brien'", "2\t'Zürich'", "3\t'東京'", "4\tNULL"]);
    assert!(failed.is_empty());
}

#[test]
fn kept_fields_of_a_matched_row() {
    let found = groups(&[Some("7,0,'T',0"), Some("7"), Some("0"), Some("'T'"), Some("0")]);
    assert_eq!(row_from_groups(Table::Pagelinks, &found), Some(b"7\t'T'".to_vec()));
    assert_eq!(row_from_groups(Table::Redirect, &found), Some(b"7\t'T'".to_vec()));
    let other = groups(&[Some("7,0,'T',1"), Some("7"), Some("0"), Some("'T'"), Some("1")]);
    assert_eq!(row_from_groups(Table::Pagelinks, &other), None);
    assert_eq!(row_from_groups(Table::Redirect, &other), Some(b"7\t'T'".to_vec()));
    let talk = groups(&[Some("x"), Some("7"), Some("00"), Some("'T'"), Some("0")]);
    assert_eq!(row_from_groups(Table::Pagelinks, &talk), None);
    let short = groups(&[Some("x"), Some("7"), Some("0")]);
    assert_eq!(row_from_groups(Table::Pagelinks, &short), None);
    assert_eq!(row_from_groups(Table::Redirect, &short), None);
    let gap = groups(&[Some("x"), Some("7"), Some("0"), None, Some("0")]);
    assert_eq!(row_from_groups(Table::Pagelinks, &gap), None);
    assert_eq!(row_from_groups(Table::Page, &groups(&[])), None);
    let page = groups(&[Some("w"), Some("9"), Some("0"), Some("'P'"), Some("''"), Some("1"), Some("0")]);
    assert_eq!(row_from_groups(Table::Page, &page), Some(b"9\t'P'\t1".to_vec()));
}

#[test]
fn dump_of_a_table() {
    let names: Vec<String> = ["readme.txt", "dewiki-20200101-page.sql.gz", "dewiki-20200101-pagelinks.sql.gz", "dewiki-20200101-redirect.sql.gz"]
        .iter().map(|s| s.to_string()).collect();
    assert_eq!(find_dump(Table::Page, &names), Ok(1));
    assert_eq!(find_dump(Table::Pagelinks, &names), Ok(2));
    assert_eq!(find_dump(Table::Redirect, &names), Ok(3));
}

#[test]
fn dump_is_missing() {
    let names: Vec<String> = ["page.sql.gz", "x-page.sql", "x-pagelinks.sql.gz", "-page.sql.gz.part"].iter().map(|s| s.to_string()).collect();
    assert_eq!(find_dump(Table::Page, &names), Err(DumpError::Missing));
    assert_eq!(find_dump(Table::Redirect, &Vec::new()), Err(DumpError::Missing));
}

#[test]
fn dump_is_not_the_only_one() {
    let names: Vec<String> = ["a-page.sql.gz", "other", "b-page.sql.gz", "c-page.sql.gz"].iter().map(|s| s.to_string()).collect();
    assert_eq!(find_dump(Table::Page, &names), Err(DumpError::Multiple));
    assert_eq!(find_dump(Table::Pagelinks, &names), Err(DumpError::Missing));
    let one: Vec<String> = vec!["-page.sql.gz".to_string()];
    assert_eq!(find_dump(Table::Page, &one), Ok(0));
}

#[test]
fn pattern_that_is_no_regular_expression() {
    assert_eq!(row_pattern("^([0-9]+").err(), Some(PatternError::Rejected));
    assert_eq!(row_pattern("a{2,1}").err(), Some(PatternError::Rejected));
    assert_eq!(row_pattern("(?P<n>").err(), Some(PatternError::Rejected));
}

#[test]
fn rows_matched_against_another_pattern() {
    let re = row_pattern("^([a-z]+)=([0-9]+)=(x?)=([0-9]+)$").unwrap();
    assert_eq!(re.as_str(), "^([a-z]+)=([0-9]+)=(x?)=([0-9]+)$");
    let out = extract_line(Table::Pagelinks, &re, b"INSERT INTO `pagelinks` VALUES (ab=0=x=0),(cd=0==0),(ef=1=x=0),(12=0=x=0);");
    assert_eq!(out.rows, vec![b"ab\tx".to_vec(), b"cd\t".to_vec()]);
    assert_eq!(out.failed, vec![b"12=0=x=0".to_vec()]);
}

#[test]
fn outcome_of_a_compiled_pattern() {
    let kept = pattern_outcome(regex::bytes::Regex::new("^a(b+)$")).unwrap();
    assert_eq!(kept.as_str(), "^a(b+)$");
    assert!(kept.is_match(b"abbb") && !kept.is_match(b"a"));
    assert_eq!(pattern_outcome(regex::bytes::Regex::new("a(b")).err(), Some(PatternError::Rejected));
    let large = regex::bytes::RegexBuilder::new("[a-z]+").size_limit(8).build();
    assert!(large.is_err());
    assert_eq!(pattern_outcome(large).err(), Some(PatternError::Rejected));
}

#[test]
fn rows_are_matched_as_the_expression_was_built() {
    let line = b"INSERT INTO `pagelinks` VALUES (AB=0=x=0),(cd=0=X=0);";
    let plain = row_pattern("^([a-z]+)=([0-9]+)=(x?)=([0-9]+)$").unwrap();
    let out = extract_line(Table::Pagelinks, &plain, line);
    assert!(out.rows.is_empty());
    assert_eq!(out.failed, vec![b"AB=0=x=0".to_vec(), b"cd=0=X=0".to_vec()]);
    let folded = regex::bytes::RegexBuilder::new("^([a-z]+)=([0-9]+)=(x?)=([0-9]+)$")
        .case_insensitive(true)
        .build()
        .unwrap();
    assert_eq!(folded.as_str(), plain.as_str());
    let out = extract_line(Table::Pagelinks, &folded, line);
    assert_eq!(out.rows, vec![b"AB\tx".to_vec(), b"cd\tX".to_vec()]);
    assert!(out.failed.is_empty());
}

#[test]
fn a_pattern_is_taken_or_not_each_time_alike() {
    for pattern in ["^([0-9]+)$", "a(b", "", "[z-a]", "(?:'.*?')|(?:NULL)"] {
        let first = row_pattern(pattern).is_ok();
        assert_eq!(row_pattern(pattern).is_ok(), first);
        assert_eq!(regex::bytes::Regex::new(pattern).is_ok(), first);
    }
    assert!(Table::Page.regex().is_ok() && Table::Pagelinks.regex().is_ok() && Table::Redirect.regex().is_ok());
}

#[test]
fn dumps_of_several_tables() {
    let names: Vec<String> = ["w-page.sql.gz", "notes", "w-pagelinks.sql.gz", "w-redirect.sql.gz"]
        .iter().map(|s| s.to_string()).collect();
    let all = vec![Table::Page, Table::Redirect, Table::Pagelinks];
    assert_eq!(find_dumps(&all, &names), Ok(vec![0, 3, 2]));
    assert_eq!(find_dumps(&vec![Table::Pagelinks], &names), Ok(vec![2]));
    assert_eq!(find_dumps(&Vec::new(), &names), Ok(Vec::new()));
    assert_eq!(find_dumps(&Vec::new(), &Vec::new()), Ok(Vec::new()));
}

#[test]
fn dumps_of_several_tables_with_a_fault() {
    let names: Vec<String> = ["a-page.sql.gz", "b-page.sql.gz", "w-pagelinks.sql.gz"].iter().map(|s| s.to_string()).collect();
    let all = vec![Table::Page, Table::Redirect, Table::Pagelinks];
    assert_eq!(find_dumps(&all, &names), Err(DumpFault { table: 0, error: DumpError::Multiple }));
    let later = vec![Table::Pagelinks, Table::Redirect, Table::Page];
    assert_eq!(find_dumps(&later, &names), Err(DumpFault { table: 1, error: DumpError::Missing }));
    assert_eq!(
        find_dumps(&vec![Table::Pagelinks, Table::Page], &names),
        Err(DumpFault { table: 1, error: DumpError::Multiple })
    );
    assert_eq!(find_dumps(&all, &Vec::new()), Err(DumpFault { table: 0, error: DumpError::Missing }));
}
