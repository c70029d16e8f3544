use anlocate::matcher::caseless_contains;

#[test]
fn test_caseless_contains() {
    let s = "this IS a string";
    let s2 = "y\u{306}es it is";
    assert!(!caseless_contains(s, s2, false));

    let s = "YES we can";
    let s2 = "yes We Can";
    assert!(caseless_contains(s, s2, true));

    let s = "this is a Big Haystack";
    let s2 = "BIG HAYSTACK";
    assert!(caseless_contains(s, s2, true));

    let s = "/usr/src/cmd/aardvark.c";
    let s2 = "/a";
    assert!(caseless_contains(s, s2, true));

    let s = "";
    let s2 = "";
    assert!(!caseless_contains(s, s2, true));

    let s = "aBc\u{6f22}\u{5b57}xYz";
    let s2 = "XYZ";
    assert!(caseless_contains(s, s2, true));

    let s = "aBc\u{6f22}\u{5b57}xYz2";
    let s2 = "XYZ2";
    assert!(caseless_contains(s, s2, true));

    let s = "svenska\u{c5}\u{d6}\u{c4}japanska\u{3042}\u{3044}\u{3046}\u{3048}\u{304a}";
    let s2 = "\u{e5}";
    assert!(caseless_contains(s, s2, false));
}

#[test]
fn test_caseless_contains_empty_needle_matches_nothing() {
    assert!(!caseless_contains("some haystack", "", true));
    assert!(!caseless_contains("some haystack", "", false));
}

#[test]
fn test_caseless_contains_respects_character_boundaries() {
    // the needle's byte length never lines up with a character boundary of
    // the haystack, so there is no hit even though the raw bytes overlap
    assert!(!caseless_contains("\u{6f22}\u{5b57}", "a", true));
    // a needle longer than the haystack never matches
    assert!(!caseless_contains("ab", "abc", true));
}

#[test]
fn test_caseless_contains_folds_both_sides() {
    // an uppercase haystack matches a lowercase needle and vice versa
    assert!(caseless_contains("FILE.TXT", "file", true));
    assert!(caseless_contains("file.txt", "FILE", true));
    // Unicode folding matches uppercase A-ring against lowercase
    assert!(caseless_contains("\u{c5}NGSTR\u{d6}M", "\u{e5}ngstr\u{f6}m", false));
}
