use minigrep::{run, search, search_case_insensitive, text_contains, Config};

#[test]
fn search_query_in_contents() {
    let query = "safe";
    let contents = "\
Rust:
safe, fast, productive.
Pick three.";

    assert_eq!(vec!["safe, fast, productive."], search(query, contents));
}

#[test]
fn search_query_not_in_contents() {
    let query = "unsafe";
    let contents = "\
Rust:
safe, fast, productive.
Pick three.";

    assert_eq!(Vec::<&str>::new(), search(query, contents));
}

#[test]
fn case_insensitive_search() {
    let query = "rUsT";
    let contents = "\
Rust:
safe, fast, productive.
Trust me.";

    assert_eq!(
        vec!["Rust:", "Trust me."],
        search_case_insensitive(query, contents)
    );
}

#[test]
fn case_insensitive_search_no_match() {
    let query = "Swift";
    let contents = "\
Rust:
safe, fast, productive.
Trust me.";

    assert_eq!(Vec::<&str>::new(), search_case_insensitive(query, contents));
}

fn config_for(query: &str, file_path: &str, ignore_case: bool) -> Config {
    let args = vec![
        String::from("minigrep"),
        query.to_string(),
        file_path.to_string(),
    ];
    Config::new(&args, ignore_case).unwrap()
}

#[test]
fn run_valid_file() {
    let config = config_for("query", "test.txt", false);
    let contents = "This is a test file.\n";

    assert_eq!(Vec::<&str>::new(), run(&config, contents));
}

#[test]
fn run_query_found() {
    let config = config_for("query", "test.txt", false);
    let contents = "This is a query test file.\n";

    assert_eq!(vec!["This is a query test file."], run(&config, contents));
}

#[test]
fn run_query_not_found() {
    let config = config_for("query", "test.txt", false);
    let contents = "This is a test file.\n";

    assert!(run(&config, contents).is_empty());
}

#[test]
fn run_follows_the_case_toggle() {
    let contents = "Query one\nquery two\nneither\nQUERY three\n";

    let exact = config_for("query", "test.txt", false);
    assert_eq!(vec!["query two"], run(&exact, contents));

    let folded = config_for("query", "test.txt", true);
    assert_eq!(
        vec!["Query one", "query two", "QUERY three"],
        run(&folded, contents)
    );
}

#[test]
fn search_is_case_sensitive() {
    let contents = "Rust:\nsafe, fast, productive.\nTrust me.";

    assert_eq!(vec!["Trust me."], search("rust", contents));
    assert_eq!(vec!["Rust:"], search("Rust", contents));
    assert_eq!(Vec::<&str>::new(), search("rUsT", contents));
}

#[test]
fn search_results_are_lines_that_contain_the_query() {
    let contents = "alpha\nbeta\r\ngamma delta\n\nalphabet\r\n";
    let all: Vec<&str> = vec!["alpha", "beta", "gamma delta", "", "alphabet"];

    for query in ["a", "al", "alpha", "et", "ta\r", " ", "z", "\n", ""] {
        let found = search(query, contents);
        for line in &found {
            assert!(all.contains(line));
            assert!(line.contains(query));
        }
        let expected: Vec<&str> = all.iter().copied().filter(|l| l.contains(query)).collect();
        assert_eq!(expected, found);
    }
}

#[test]
fn empty_query_returns_every_line() {
    let contents = "one\ntwo\r\n\nfour";

    assert_eq!(vec!["one", "two", "", "four"], search("", contents));
    assert_eq!(
        vec!["one", "two", "", "four"],
        search_case_insensitive("", contents)
    );
}

#[test]
fn empty_contents_have_no_lines() {
    assert_eq!(Vec::<&str>::new(), search("", ""));
    assert_eq!(Vec::<&str>::new(), search("a", ""));
    assert_eq!(Vec::<&str>::new(), search_case_insensitive("", ""));
}

#[test]
fn searching_twice_gives_the_same_lines() {
    let contents = "Rust:\nsafe, fast, productive.\nTrust me.\n";

    assert_eq!(search("st", contents), search("st", contents));
    assert_eq!(
        search_case_insensitive("RUST", contents),
        search_case_insensitive("RUST", contents)
    );
    assert_eq!(vec!["Rust:", "safe, fast, productive.", "Trust me."], search("st", contents));
}

#[test]
fn results_keep_the_order_of_the_text() {
    let contents = "b1\na\nb2\nc\nb3";

    assert_eq!(vec!["b1", "b2", "b3"], search("b", contents));
    assert_eq!(vec!["b1", "b2", "b3"], search_case_insensitive("B", contents));
}

#[test]
fn repeated_lines_are_each_returned() {
    let contents = "same\nother\nsame\n";

    assert_eq!(vec!["same", "same"], search("same", contents));
}

#[test]
fn results_are_views_into_the_contents() {
    let contents = String::from("first\nsecond needle\nthird");
    let found = search("needle", &contents);

    assert_eq!(1, found.len());
    let start = contents.as_ptr() as usize;
    let at = found[0].as_ptr() as usize;
    assert_eq!(start + 6, at);
    assert_eq!("second needle".len(), found[0].len());
}

#[test]
fn case_insensitive_results_keep_their_casing() {
    let contents = "HELLO World\nhello world\nHeLLo\nbye";

    assert_eq!(
        vec!["HELLO World", "hello world", "HeLLo"],
        search_case_insensitive("hElLo", contents)
    );
}

#[test]
fn case_insensitive_search_folds_beyond_ascii() {
    let contents = "ÄPFEL und Birnen\näpfel\nApfel\nΣΟΦΙΑ";

    assert_eq!(
        vec!["ÄPFEL und Birnen", "äpfel"],
        search_case_insensitive("Äpfel", contents)
    );
    assert_eq!(vec!["äpfel"], search("äpfel", contents));
    assert_eq!(vec!["ΣΟΦΙΑ"], search_case_insensitive("σοφ", contents));
}

#[test]
fn case_insensitive_search_agrees_with_folding_by_hand() {
    let contents = "Straße\nSTRASSE\nİstanbul\nistanbul\nDŽungla\nmixed CASE line\r\n";
    let lines: Vec<&str> = vec![
        "Straße",
        "STRASSE",
        "İstanbul",
        "istanbul",
        "DŽungla",
        "mixed CASE line",
    ];

    for query in ["STRA", "ß", "i", "İ", "dž", "Case", "E L", ""] {
        let folded = query.to_lowercase();
        let expected: Vec<&str> = lines
            .iter()
            .copied()
            .filter(|l| l.to_lowercase().contains(&folded))
            .collect();
        assert_eq!(expected, search_case_insensitive(query, contents));
    }
}

#[test]
fn search_matches_characters_not_bytes() {
    let contents = "naïve café\nnaive cafe\n日本語のテキスト\n😀 smile\n";

    assert_eq!(vec!["naïve café"], search("é", contents));
    assert_eq!(vec!["naïve café"], search("ïve", contents));
    assert_eq!(vec!["日本語のテキスト"], search("本語", contents));
    assert_eq!(vec!["😀 smile"], search("😀", contents));
    assert_eq!(Vec::<&str>::new(), search("è", contents));
}

#[test]
fn search_agrees_with_the_standard_library() {
    let samples = [
        "",
        "\n",
        "\n\n",
        "\r\n",
        "\r",
        "a",
        "a\n",
        "a\r\n",
        "a\r",
        "a\r\r\n",
        "a\rb\nc",
        "a\n\nb",
        "a\n\r\nb\r\n",
        "one\ntwo\nthree",
        "one\r\ntwo\r\nthree\r\n",
        "tab\there\n  spaces  \n",
        "é\nèé\r\n日本\n",
        "\n\nlast",
        "ends with cr\r",
        "x\n\r",
    ];
    let queries = ["", "a", "\r", "e", "é", "t", "\t", " ", "one", "last", "\n"];

    for contents in samples {
        for query in queries {
            let expected: Vec<&str> = contents.lines().filter(|l| l.contains(query)).collect();
            assert_eq!(expected, search(query, contents));
        }
    }
}

#[test]
fn text_contains_finds_runs_of_characters() {
    assert!(text_contains("safe, fast, productive.", "fast"));
    assert!(text_contains("abc", "abc"));
    assert!(text_contains("abc", "a"));
    assert!(text_contains("abc", "c"));
    assert!(text_contains("abc", ""));
    assert!(text_contains("", ""));
    assert!(text_contains("aab", "ab"));
    assert!(text_contains("ababac", "abac"));
    assert!(!text_contains("abc", "abcd"));
    assert!(!text_contains("abc", "ac"));
    assert!(!text_contains("", "a"));
    assert!(!text_contains("abc", "B"));
    assert!(text_contains("grüße", "üß"));
    assert!(!text_contains("grüße", "us"));
}

#[test]
fn text_contains_agrees_with_the_standard_library() {
    let texts = ["", "a", "ab", "aab", "abab", "héllo wörld", "日本語", "a\nb", "xyz"];

    for haystack in texts {
        for needle in texts {
            assert_eq!(haystack.contains(needle), text_contains(haystack, needle));
        }
    }
}
