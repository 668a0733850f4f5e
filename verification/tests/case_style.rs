use just_fmt::fmt_case_style::{
    camel_case, dot_case, kebab_case, lower_case, pascal_case, snake_case, str_split, title_case,
    upper_case, CaseFormatter,
};

fn words(input: &str) -> Vec<String> {
    str_split(input.to_string())
}

#[test]
fn test_processer() {
    let test_cases = vec![
        ("brew_coffee", "brewCoffee"),
        ("brew, coffee", "brewCoffee"),
        ("brew-coffee", "brewCoffee"),
        ("Brew.Coffee", "brewCoffee"),
        ("bRewCofFee", "bRewCofFee"),
        ("brewCoffee", "brewCoffee"),
        ("b&rewCoffee", "brewCoffee"),
        ("BrewCoffee", "brewCoffee"),
        ("brew.coffee", "brewCoffee"),
        ("Brew_Coffee", "brewCoffee"),
        ("BREW COFFEE", "brewCoffee"),
    ];

    for (input, expected) in test_cases {
        let processor = CaseFormatter::from(input);
        assert_eq!(
            processor.to_camel_case(),
            expected,
            "Failed for input: '{}'",
            input
        );
    }
}

#[test]
fn test_conversions() {
    let processor = CaseFormatter::from("brewCoffee");

    assert_eq!(processor.to_upper_case(), "BREW COFFEE");
    assert_eq!(processor.to_lower_case(), "brew coffee");
    assert_eq!(processor.to_title_case(), "Brew Coffee");
    assert_eq!(processor.to_dot_case(), "brew.coffee");
    assert_eq!(processor.to_snake_case(), "brew_coffee");
    assert_eq!(processor.to_kebab_case(), "brew-coffee");
    assert_eq!(processor.to_pascal_case(), "BrewCoffee");
    assert_eq!(processor.to_camel_case(), "brewCoffee");
}

#[test]
fn conversions_from_two_words() {
    let processor = CaseFormatter::from("brew coffee");

    assert_eq!(processor.to_upper_case(), "BREW COFFEE");
    assert_eq!(processor.to_lower_case(), "brew coffee");
    assert_eq!(processor.to_title_case(), "Brew Coffee");
    assert_eq!(processor.to_dot_case(), "brew.coffee");
    assert_eq!(processor.to_snake_case(), "brew_coffee");
    assert_eq!(processor.to_kebab_case(), "brew-coffee");
    assert_eq!(processor.to_pascal_case(), "BrewCoffee");
    assert_eq!(processor.to_camel_case(), "brewCoffee");
}

#[test]
fn empty_input_renders_empty() {
    let processor = CaseFormatter::from("");

    assert_eq!(processor.to_upper_case(), "");
    assert_eq!(processor.to_lower_case(), "");
    assert_eq!(processor.to_title_case(), "");
    assert_eq!(processor.to_dot_case(), "");
    assert_eq!(processor.to_snake_case(), "");
    assert_eq!(processor.to_kebab_case(), "");
    assert_eq!(processor.to_pascal_case(), "");
    assert_eq!(processor.to_camel_case(), "");
}

#[test]
fn input_without_words_renders_empty() {
    for input in ["&&&", "___", " , . - ", "\u{e9}\u{4e2d}!", "\t\n"] {
        assert_eq!(words(input), Vec::<String>::new(), "input: {:?}", input);
        assert_eq!(camel_case(input), "");
        assert_eq!(title_case(input), "");
        assert_eq!(snake_case(input), "");
    }
}

#[test]
fn split_at_separators() {
    assert_eq!(words("brew_coffee"), vec!["brew", "coffee"]);
    assert_eq!(words("brew, coffee"), vec!["brew", "coffee"]);
    assert_eq!(words("brew.coffee-now please"), vec!["brew", "coffee", "now", "please"]);
    assert_eq!(words("  hello__world--"), vec!["hello", "world"]);
    assert_eq!(words("_x"), vec!["x"]);
}

#[test]
fn split_at_case_boundaries() {
    assert_eq!(words("brewCoffee"), vec!["brew", "coffee"]);
    assert_eq!(words("bRewCofFee"), vec!["b", "rew", "cof", "fee"]);
    assert_eq!(words("aBcD"), vec!["a", "bc", "d"]);
    assert_eq!(words("BREW COFFEE"), vec!["brew", "coffee"]);
    assert_eq!(words("HTTPServer"), vec!["httpserver"]);
    assert_eq!(words("myHTTPServer"), vec!["my", "httpserver"]);
}

#[test]
fn digits_make_no_boundary() {
    assert_eq!(words("version2Update"), vec!["version2update"]);
    assert_eq!(words("a1B"), vec!["a1b"]);
    assert_eq!(words("x86_64"), vec!["x86", "64"]);
}

#[test]
fn dropped_characters_join_their_neighbours() {
    assert_eq!(words("b&rewCoffee"), vec!["brew", "coffee"]);
    assert_eq!(words("br&ew"), vec!["brew"]);
    assert_eq!(words("w&C"), vec!["w", "c"]);
    assert_eq!(words("caf\u{e9}Cr\u{e8}me"), vec!["caf", "crme"]);
    assert_eq!(words("a\tb"), vec!["ab"]);
}

#[test]
fn formatter_from_string_and_reference() {
    let owned = String::from("Brew.Coffee");
    assert_eq!(CaseFormatter::from(&owned).to_kebab_case(), "brew-coffee");
    assert_eq!(CaseFormatter::from(owned).to_kebab_case(), "brew-coffee");
}

#[test]
fn rendering_can_be_repeated() {
    let processor = CaseFormatter::from("brew_coffee");
    assert_eq!(processor.to_title_case(), "Brew Coffee");
    assert_eq!(processor.to_title_case(), "Brew Coffee");
    assert_eq!(processor.to_upper_case(), "BREW COFFEE");
}

#[test]
fn single_word() {
    let processor = CaseFormatter::from("Coffee");
    assert_eq!(processor.to_camel_case(), "coffee");
    assert_eq!(processor.to_pascal_case(), "Coffee");
    assert_eq!(processor.to_title_case(), "Coffee");
    assert_eq!(processor.to_snake_case(), "coffee");
    assert_eq!(processor.to_upper_case(), "COFFEE");
}

#[test]
fn words_with_digits() {
    let processor = CaseFormatter::from("route 66_west");
    assert_eq!(processor.to_camel_case(), "route66West");
    assert_eq!(processor.to_pascal_case(), "Route66West");
    assert_eq!(processor.to_title_case(), "Route 66 West");
    assert_eq!(processor.to_upper_case(), "ROUTE 66 WEST");
    assert_eq!(processor.to_dot_case(), "route.66.west");
}

#[test]
fn one_call_conversions() {
    assert_eq!(camel_case("brew_coffee"), "brewCoffee");
    assert_eq!(upper_case("brew coffee"), "BREW COFFEE");
    assert_eq!(lower_case("BREW COFFEE"), "brew coffee");
    assert_eq!(title_case("brew_coffee"), "Brew Coffee");
    assert_eq!(dot_case("brew_coffee"), "brew.coffee");
    assert_eq!(snake_case("brewCoffee"), "brew_coffee");
    assert_eq!(kebab_case("brew.Coffee"), "brew-coffee");
    assert_eq!(pascal_case("brewCoffee"), "BrewCoffee");
}

#[test]
fn rendering_twice_changes_nothing() {
    for input in ["brewCoffee_now", "Brew, coffee", "route 66", "a1_b2_c3", "x", ""] {
        assert_eq!(kebab_case(&kebab_case(input)), kebab_case(input));
        assert_eq!(snake_case(&snake_case(input)), snake_case(input));
        assert_eq!(dot_case(&dot_case(input)), dot_case(input));
        assert_eq!(lower_case(&lower_case(input)), lower_case(input));
        assert_eq!(upper_case(&upper_case(input)), upper_case(input));
        assert_eq!(title_case(&title_case(input)), title_case(input));
    }
    for input in ["brewCoffee_now", "Brew, coffee", "route 66", "ab_1c", "x", ""] {
        assert_eq!(pascal_case(&pascal_case(input)), pascal_case(input));
        assert_eq!(camel_case(&camel_case(input)), camel_case(input));
    }
}

#[test]
fn squeezed_styles_can_lose_a_boundary() {
    // A one-letter word, or a word that ends in a digit, hides the break
    // before the next word once the words stand side by side.
    assert_eq!(pascal_case("a1_b"), "A1B");
    assert_eq!(pascal_case("A1B"), "A1b");
    assert_eq!(pascal_case("bRewCofFee"), "BRewCofFee");
    assert_eq!(pascal_case("BRewCofFee"), "BrewCofFee");
    assert_eq!(camel_case("ab_c_d"), "abCD");
    assert_eq!(camel_case("abCD"), "abCd");
    // In camelCase a first word of one letter still shows the break.
    assert_eq!(camel_case("b_rew"), "bRew");
    assert_eq!(camel_case("bRew"), "bRew");
}

#[test]
fn snake_case_round_trip() {
    for input in ["brewCoffee", "Brew.Coffee now", "bRewCofFee", "x86_64", "a&b", "---"] {
        assert_eq!(words(&snake_case(input)), words(input), "input: {:?}", input);
    }
    assert_eq!(words(&snake_case("bRewCofFee")), vec!["b", "rew", "cof", "fee"]);
}

#[test]
fn other_styles_round_trip() {
    let expected = vec!["b", "rew", "cof", "fee"];
    assert_eq!(words(&kebab_case("bRewCofFee")), expected);
    assert_eq!(words(&dot_case("bRewCofFee")), expected);
    assert_eq!(words(&lower_case("bRewCofFee")), expected);
    assert_eq!(words(&upper_case("bRewCofFee")), expected);
    assert_eq!(words(&title_case("bRewCofFee")), expected);
}
