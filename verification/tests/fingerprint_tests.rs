use dbprobe::fingerprint::fingerprint;

#[test]
fn test_string_literals() {
    assert_eq!(
        fingerprint("SELECT * FROM users WHERE name = 'alice'"),
        "select * from users where name = $s"
    );
}

#[test]
fn test_numeric_literals() {
    assert_eq!(
        fingerprint("SELECT * FROM users WHERE id = 42"),
        "select * from users where id = $n"
    );
}

#[test]
fn test_mixed() {
    assert_eq!(
        fingerprint("UPDATE orders SET status = 'shipped' WHERE id = 123 AND price > 9.99"),
        "update orders set status = $s where id = $n and price > $n"
    );
}

#[test]
fn test_in_list() {
    assert_eq!(
        fingerprint("SELECT * FROM t WHERE id IN (1, 2, 3)"),
        "select * from t where id in ($...)"
    );
}

#[test]
fn test_table_names_preserved() {
    assert_eq!(
        fingerprint("SELECT * FROM table1 WHERE col2 = 5"),
        "select * from table1 where col2 = $n"
    );
}

#[test]
fn test_escaped_quotes() {
    assert_eq!(
        fingerprint("SELECT * FROM t WHERE name = 'it''s'"),
        "select * from t where name = $s"
    );
}

#[test]
fn fingerprint_of_empty_text_is_empty() {
    assert_eq!(fingerprint(""), "");
}

#[test]
fn fingerprint_of_a_lone_digit() {
    assert_eq!(fingerprint("1"), "$n");
}

#[test]
fn fingerprint_keeps_parameter_placeholders() {
    assert_eq!(
        fingerprint("INSERT INTO t VALUES ($1, $22)"),
        "insert into t values ($1, $22)"
    );
}

#[test]
fn fingerprint_replaces_dollar_quoted_literals() {
    assert_eq!(fingerprint("SELECT $$it's$$ AS a"), "select $s as a");
    assert_eq!(fingerprint("SELECT $tag$ body $$ $tag$, 1"), "select $s, $n");
}

#[test]
fn fingerprint_of_an_unclosed_dollar_quote() {
    assert_eq!(fingerprint("$$abc"), "$sc");
}

#[test]
fn fingerprint_of_an_unclosed_string_runs_to_the_end() {
    assert_eq!(fingerprint("SELECT 'abc"), "select $s");
}

#[test]
fn fingerprint_takes_at_most_one_decimal_point() {
    assert_eq!(fingerprint("x = 1.5"), "x = $n");
    assert_eq!(fingerprint("x = 1.2.3"), "x = $n.$n");
}

#[test]
fn fingerprint_collapses_lists_of_strings_and_keeps_the_keyword_boundary() {
    assert_eq!(fingerprint("a IN ('x','y')"), "a in ($...)");
    assert_eq!(fingerprint("a in(1,2)"), "a in ($...)");
    assert_eq!(fingerprint("admin (1, 2)"), "admin ($n, $n)");
    assert_eq!(fingerprint("a_IN (1)"), "a_in ($n)");
    assert_eq!(fingerprint("a IN (1, b)"), "a in ($n, b)");
    assert_eq!(fingerprint("a IN ()"), "a in ()");
}

#[test]
fn fingerprint_is_idempotent_on_text_without_literals() {
    let once = fingerprint("SELECT a, b FROM table1 WHERE c = d");
    assert_eq!(once, "select a, b from table1 where c = d");
    assert_eq!(fingerprint(&once), once);
}

#[test]
fn fingerprint_leaves_other_scripts_alone() {
    assert_eq!(fingerprint("SELECT 'é' AS Ünï"), "select $s as Ünï");
}
