use rustymal::eval::PRINT;
use rustymal::printer::{escape, pr_str};
use rustymal::reader::{read_str, tokenize, unescape};
use rustymal::types::{MalError, MalVal, Paren};

fn read(s: &str) -> Result<MalVal, MalError> {
    read_str(s.to_string())
}

#[test]
fn test_tokenize() {
    assert_eq!(
        tokenize("(+ 134 234)"),
        vec!["(", "+", "134", "234", ")"]
    );
}

#[test]
fn tokenize_markers_strings_and_comments() {
    assert_eq!(
        tokenize("~@a #{1} ; note\n'b,\"x y\" @c ^d"),
        vec!["~@", "a", "#{", "1", "}", "'", "b", "\"x y\"", "@", "c", "^", "d"]
    );
    assert_eq!(tokenize("\"open"), vec!["\"open"]);
    assert_eq!(tokenize("  , \n"), Vec::<String>::new());
}

#[test]
fn atoms_print_back_as_written() {
    for text in ["nil", "true", "false", "42", "-7", ":kw", "sym", "\"plain text\""] {
        assert_eq!(PRINT(&read(text).unwrap()), text);
    }
}

#[test]
fn atom_kinds() {
    assert_eq!(read("nil").unwrap(), MalVal::Nil);
    assert_eq!(read("true").unwrap(), MalVal::Bool(true));
    assert_eq!(read("-9223372036854775808").unwrap(), MalVal::Number(i64::MIN));
    assert_eq!(read("+5").unwrap(), MalVal::Number(5));
    assert_eq!(
        read("9223372036854775808").unwrap(),
        MalVal::symbol("9223372036854775808")
    );
    assert_eq!(read(":k").unwrap(), MalVal::keyword("k"));
    assert_eq!(read("-").unwrap(), MalVal::symbol("-"));
    assert_eq!(read("\"a\\nb\"").unwrap(), MalVal::string("a\nb"));
}

#[test]
fn unbalanced_delimiters_are_named() {
    assert_eq!(read("(1 2"), Err(MalError::Unbalanced(Paren::Round)));
    assert_eq!(read("[1"), Err(MalError::Unbalanced(Paren::Square)));
    assert_eq!(read("#{1"), Err(MalError::Unbalanced(Paren::Curly)));
    assert_eq!(read("{1 2"), Err(MalError::Unbalanced(Paren::Curly)));
}

#[test]
fn odd_map_entries_report_the_count() {
    assert_eq!(read("{1}"), Err(MalError::OddMap(1)));
    assert_eq!(read("{1 2 3}"), Err(MalError::OddMap(3)));
    assert_eq!(read("{1 2 3"), Err(MalError::OddMap(3)));
}

#[test]
fn unterminated_string_and_empty_input() {
    assert_eq!(read("\"abc"), Err(MalError::UnclosedQuote));
    assert_eq!(read("\"ab\\\""), Err(MalError::UnclosedQuote));
    assert_eq!(read(""), Err(MalError::NoInput));
    assert_eq!(read("; only a comment"), Err(MalError::NoInput));
}

#[test]
fn reader_macros_desugar() {
    assert_eq!(
        read("'a").unwrap(),
        MalVal::list(vec![MalVal::symbol("quote"), MalVal::symbol("a")])
    );
    assert_eq!(
        read("~@(1)").unwrap(),
        MalVal::list(vec![
            MalVal::symbol("splice-unquote"),
            MalVal::list(vec![MalVal::Number(1)])
        ])
    );
    assert_eq!(PRINT(&read("@x").unwrap()), "(deref x)");
    assert_eq!(PRINT(&read("`(a ~b)").unwrap()), "(quasiquote (a (unquote b)))");
}

#[test]
fn collections_print() {
    assert_eq!(PRINT(&read("( 1 [2 3] {:a 1} #{4})").unwrap()), "(1 [2 3] {:a 1} #{4})");
    assert_eq!(PRINT(&read("{:a 1 :a 2}").unwrap()), "{:a 2}");
    assert_eq!(PRINT(&read("#{1 1 2}").unwrap()), "#{1 2}");
}

#[test]
fn escaping_both_ways() {
    assert_eq!(escape("a\"b\\c\nd\re\tf"), "a\\\"b\\\\c\\nd\\re\\tf");
    assert_eq!(unescape("a\\\"b\\\\c\\nd\\re\\tf\\q"), "a\"b\\c\nd\re\tfq");
    assert_eq!(unescape("end\\"), "end");
    let s = MalVal::string("x\"y");
    assert_eq!(pr_str(&s, true), "\"x\\\"y\"");
    assert_eq!(pr_str(&s, false), "x\"y");
}
