use an_rope::Rope;

#[test]
fn char_ref_empty() {
    let mut rope = Rope::from("");
    let chars = vec!['a', 'b', 'c', 'd'];
    let refs: Vec<&char> = chars.iter().collect();
    let owned: Vec<char> = refs.into_iter().copied().collect();
    rope.extend_chars(&owned);
    assert_eq!(&rope, "abcd");
}

#[test]
fn char_refs_nonempty() {
    let mut rope = Rope::from("a");
    let refs = vec![&'b', &'c', &'d'];
    let owned: Vec<char> = refs.into_iter().copied().collect();
    rope.extend_chars(&owned);
    assert_eq!(&rope, "abcd");
}

#[test]
fn string_empty() {
    let mut rope = Rope::from("");
    rope.extend_strings(&vec![String::from("aaaa"), String::from("bbbb"), String::from("cccc")]);
    assert_eq!(&rope, "aaaabbbbcccc");
}

#[test]
fn string_nonempty() {
    let mut rope = Rope::from("aaaa");
    rope.extend_strings(&vec![String::from("bbbb"), String::from("cccc")]);
    assert_eq!(&rope, "aaaabbbbcccc");
}

#[test]
fn rope_empty() {
    let mut rope = Rope::from("");
    rope.extend_ropes(&vec![Rope::from("aaaa"), Rope::from("bbbb"), Rope::from("cccc")]);
    assert_eq!(&rope, "aaaabbbbcccc");
}

#[test]
fn rope_nonempty() {
    let mut rope = Rope::from("aaaa");
    rope.extend_ropes(&vec![Rope::from("bbbb"), Rope::from("cccc")]);
    assert_eq!(&rope, "aaaabbbbcccc");
}

#[test]
fn str_slice_empty() {
    let mut rope = Rope::from("");
    rope.extend_strs(&vec!["aaaa", "bbbb", "cccc"]);
    assert_eq!(&rope, "aaaabbbbcccc");
}

#[test]
fn str_slice_nonempty() {
    let mut rope = Rope::from("aaaa");
    rope.extend_strs(&vec!["bbbb", "cccc"]);
    assert_eq!(&rope, "aaaabbbbcccc");
}

#[test]
fn chars_empty() {
    let mut rope = Rope::from("");
    rope.extend_chars(&vec!['a', 'b', 'c', 'd']);
    assert_eq!(&rope, "abcd");
}

#[test]
fn chars_nonempty() {
    let mut rope = Rope::from("a");
    rope.extend_chars(&vec!['b', 'c', 'd']);
    assert_eq!(&rope, "abcd");
}

#[test]
fn str_slice() {
    let vec = vec!["aaaa", "bbbb", "cccc"];
    let rope: Rope = Rope::from_strs(&vec);
    assert_eq!(&rope, "aaaabbbbcccc");
}

#[test]
fn test_str_slice_empty() {
    let vec: Vec<&str> = vec![];
    let rope: Rope = Rope::from_strs(&vec);
    assert_eq!(&rope, "");
}

#[test]
fn chars() {
    let vec = vec!['a', 'b', 'c', 'd'];
    let rope: Rope = Rope::from_chars(&vec);
    assert_eq!(&rope, "abcd");
}

#[test]
fn test_chars_empty() {
    let vec: Vec<char> = vec![];
    let rope: Rope = Rope::from_chars(&vec);
    assert_eq!(&rope, "");
}

#[test]
fn char_refs() {
    let vec = vec!['a', 'b', 'c', 'd'];
    let owned: Vec<char> = (&vec).into_iter().copied().collect();
    let rope: Rope = Rope::from_chars(&owned);
    assert_eq!(&rope, "abcd");
}

#[test]
fn char_refs_empty() {
    let vec: Vec<&char> = vec![];
    let owned: Vec<char> = vec.into_iter().copied().collect();
    let rope: Rope = Rope::from_chars(&owned);
    assert_eq!(&rope, "");
}

#[test]
fn strings() {
    let vec: Vec<String> = vec![String::from("aaaa"), String::from("bbbb"), String::from("cccc")];
    let rope: Rope = Rope::from_strings(&vec);
    assert_eq!(&rope, "aaaabbbbcccc");
}

#[test]
fn strings_empty() {
    let vec: Vec<String> = vec![];
    let rope: Rope = Rope::from_strings(&vec);
    assert_eq!(&rope, "");
}

#[test]
fn ropes() {
    let vec: Vec<Rope> = vec![Rope::from("aaaa"), Rope::from("bbbb"), Rope::from("cccc")];
    let rope: Rope = Rope::from_ropes(&vec);
    assert_eq!(&rope, "aaaabbbbcccc");
}

#[test]
fn ropes_empty() {
    let vec: Vec<Rope> = vec![];
    let rope: Rope = Rope::from_ropes(&vec);
    assert_eq!(&rope, "");
}
