use an_rope::segment::{indexed_pieces, pieces, push_shifted, IndexedPieces, Pieces};
use an_rope::walk::fragments_eq;
use an_rope::{Chars, DecodeFault, Fault, Lines, Metric, Node, NodeLink, Rope, Split};

#[test]
fn from_utf8_takes_valid_bytes() {
    let sparkle_heart = vec![240, 159, 146, 150];
    let rope = Rope::from_utf8(sparkle_heart).unwrap();
    assert_eq!(&rope, "💖");
    assert_eq!(rope.len(), 4);
    assert_eq!(rope.measure::<Chars>().0, 1);
}

#[test]
fn from_utf8_refuses_invalid_bytes() {
    let broken = vec![0, 159, 146, 150];
    assert_eq!(Rope::from_utf8(broken).err(), Some(DecodeFault::Utf8));
    // An encoding that is longer than it need be, and a surrogate.
    assert_eq!(Rope::from_utf8(vec![0xc0, 0x80]).err(), Some(DecodeFault::Utf8));
    assert_eq!(Rope::from_utf8(vec![0xed, 0xa0, 0x80]).err(), Some(DecodeFault::Utf8));
    assert_eq!(Rope::from_utf8(vec![]).unwrap(), Rope::new());
}

#[test]
fn from_utf16_decodes_or_refuses() {
    let music = [0xD834, 0xDD1E, 0x006d, 0x0075, 0x0073, 0x0069, 0x0063];
    assert_eq!(&Rope::from_utf16(&music).unwrap(), "𝄞music");
    let broken = [0xD834, 0xDD1E, 0x006d, 0x0075, 0xD800, 0x0069, 0x0063];
    assert_eq!(Rope::from_utf16(&broken).err(), Some(DecodeFault::Utf16));
    assert_eq!(&Rope::from_utf16(&[]).unwrap(), "");
}

#[test]
fn measures_in_every_metric() {
    let r = Rope::from("héllo\nwörld\n!");
    assert_eq!(r.len(), 15);
    assert_eq!(r.measure::<usize>(), 15);
    assert_eq!(r.measure::<Chars>().0, 13);
    assert_eq!(r.measure::<Lines>().0, 2);
    let pieces = Rope::from("hé").append(&Rope::from("llo\nwö")).append(&Rope::from("rld\n!"));
    assert_eq!(pieces.measure::<usize>(), 15);
    assert_eq!(pieces.measure::<Chars>().get(), 13);
    assert_eq!(pieces.measure::<Lines>().get(), 2);
    assert_eq!(pieces.measure_weight::<usize>(), 10);
    assert_eq!(pieces.measure_weight::<Chars>().0, 8);
    assert_eq!(pieces.measure_weight::<Lines>().0, 1);
    assert_eq!(Rope::new().measure::<Chars>().0, 0);
    assert_eq!(Rope::new().measure::<Lines>().0, 0);
}

#[test]
fn byte_index_of_positions() {
    for r in [
        Rope::from("héllo\nwörld\n!"),
        Rope::from("hé").append(&Rope::from("llo\nwö")).append(&Rope::from("rld\n!")),
    ] {
        assert_eq!(r.to_byte_index(0usize), Some(0));
        assert_eq!(r.to_byte_index(2usize), Some(2));
        assert_eq!(r.to_byte_index(15usize), Some(15));
        assert_eq!(r.to_byte_index(16usize), None);
        assert_eq!(r.to_byte_index(Chars(0)), Some(0));
        assert_eq!(r.to_byte_index(Chars(1)), Some(1));
        assert_eq!(r.to_byte_index(Chars(2)), Some(3));
        assert_eq!(r.to_byte_index(Chars(8)), Some(10));
        assert_eq!(r.to_byte_index(Chars(13)), Some(15));
        assert_eq!(r.to_byte_index(Chars(14)), None);
        assert_eq!(r.to_byte_index(Lines(0)), Some(0));
        assert_eq!(r.to_byte_index(Lines(1)), Some(7));
        assert_eq!(r.to_byte_index(Lines(2)), Some(14));
        assert_eq!(r.to_byte_index(Lines(3)), None);
    }
    assert_eq!(Rope::new().to_byte_index(Chars(0)), Some(0));
    assert_eq!(Rope::new().to_byte_index(Lines(0)), Some(0));
    assert_eq!(Rope::new().to_byte_index(Lines(1)), None);
    assert_eq!(Rope::new().to_byte_index(1usize), None);
}

#[test]
fn char_boundaries() {
    let r = Rope::from("hé").append(&Rope::from("llo"));
    assert!(r.is_char_boundary(0));
    assert!(r.is_char_boundary(1));
    assert!(!r.is_char_boundary(2));
    assert!(r.is_char_boundary(3));
    assert!(r.is_char_boundary(6));
    assert!(!r.is_char_boundary(7));
    assert!(Rope::new().is_char_boundary(0));
    assert!(!Rope::new().is_char_boundary(1));
}

#[test]
fn edits_by_characters_and_lines() {
    let r = Rope::from("héllo\nwörld\n!");
    let (a, b) = r.split(Lines(1));
    assert_eq!(&a, "héllo\n");
    assert_eq!(&b, "wörld\n!");
    let (a, b) = r.split(Chars(2));
    assert_eq!(&a, "hé");
    assert_eq!(&b, "llo\nwörld\n!");
    assert_eq!(&r.insert(Chars(2), 'x'), "héxllo\nwörld\n!");
    assert_eq!(&r.insert_str(Lines(1), ">> "), "héllo\n>> wörld\n!");
    assert_eq!(&r.insert_str(Lines(2), ">> "), "héllo\nwörld\n!>> ");
    assert_eq!(&r.delete(Chars(1)..Chars(3)), "hlo\nwörld\n!");
    assert_eq!(&r.delete(Lines(1)..Lines(2)), "héllo\n!");
    assert_eq!(&r.delete(Lines(0)..Lines(0)), "héllo\nwörld\n!");
    assert_eq!(&r.insert(Chars(13), '?'), "héllo\nwörld\n!?");
    assert_eq!(&r, "héllo\nwörld\n!");
}

#[test]
fn split_through_the_trait() {
    let rope = Rope::from("ab").append(&Rope::from("cd"));
    let (ab, cd) = Split::split(&rope, Chars(2));
    assert_eq!(&ab, "ab");
    assert_eq!(&cd, "cd");
    let link = Node::new_branch(Node::new_leaf("ab".into()), Node::new_leaf("cd".into()));
    let (a, bcd) = Split::split(&link, 1usize);
    assert_eq!(a.strings(), vec!["a"]);
    assert_eq!(bcd.strings(), vec!["b", "cd"]);
}

#[test]
fn faults_of_positions() {
    let r = Rope::from("héllo");
    assert_eq!(r.locate(3usize), Ok(3));
    assert_eq!(r.locate(2usize), Err(Fault::Boundary));
    assert_eq!(r.locate(7usize), Err(Fault::Bounds));
    assert_eq!(r.locate(Chars(5)), Ok(6));
    assert_eq!(r.locate(Chars(6)), Err(Fault::Bounds));
    assert_eq!(r.locate(Lines(1)), Err(Fault::Bounds));
    assert_eq!(r.locate_range(&(1..3)), Ok((1, 3)));
    assert_eq!(r.locate_range(&(3..1)), Err(Fault::Order));
    assert_eq!(r.locate_range(&(12..8)), Err(Fault::Order));
    assert_eq!(r.locate_range(&(1..42)), Err(Fault::Bounds));
    assert_eq!(r.locate_range(&(2..42)), Err(Fault::Bounds));
    assert_eq!(r.locate_range(&(2..3)), Err(Fault::Boundary));
    assert_eq!(r.locate_range(&(Chars(1)..Chars(2))), Ok((1, 3)));
}

#[test]
fn edits_that_hand_back_the_fault() {
    let r = Rope::from("this is nöt fine");
    assert_eq!(r.try_delete(8..13).unwrap(), Rope::from("this is fine"));
    assert_eq!(r.try_delete(12..8).err(), Some(Fault::Order));
    assert_eq!(r.try_delete(0..42).err(), Some(Fault::Bounds));
    assert_eq!(r.try_delete(10..13).err(), Some(Fault::Boundary));
    assert_eq!(r.try_split(10usize).err(), Some(Fault::Boundary));
    assert_eq!(r.try_split(18usize).err(), Some(Fault::Bounds));
    let (a, b) = r.try_split(Chars(10)).unwrap();
    assert_eq!(&a, "this is nö");
    assert_eq!(&b, "t fine");
    assert_eq!(r.try_insert_str(99usize, "x").err(), Some(Fault::Bounds));
    assert_eq!(r.try_insert_str(10usize, "x").err(), Some(Fault::Boundary));
    assert_eq!(&r.try_insert_str(8usize, "really ").unwrap(), "this is really nöt fine");
    assert_eq!(r.try_insert_rope(99usize, &Rope::new()).unwrap(), r);
    assert_eq!(r.try_insert_str(99usize, "").err(), Some(Fault::Bounds));
    assert_eq!(r.try_insert_str(10usize, "").unwrap(), r);
    assert_eq!(&r.try_insert_str(17usize, "!").unwrap(), "this is nöt fine!");
    assert_eq!(&r.try_insert_str(0usize, "> ").unwrap(), "> this is nöt fine");
    assert_eq!(r.insertion_fault(10usize), Some(Fault::Boundary));
    assert_eq!(r.insertion_fault(18usize), Some(Fault::Bounds));
    assert_eq!(r.insertion_fault(17usize), None);
    assert_eq!(r.insertion_fault(Lines(0)), None);
    assert_eq!(r.insertion_fault(Lines(1)), Some(Fault::Bounds));
    assert_eq!(r.try_insert_rope(99usize, &Rope::from("x")).err(), Some(Fault::Bounds));
    assert_eq!(&r.try_insert_rope(Chars(16), &Rope::from("!")).unwrap(), "this is nöt fine!");
    assert_eq!(r.try_slice(8..10).err(), Some(Fault::Boundary));
    assert_eq!(r.try_slice(10..8).err(), Some(Fault::Order));
    assert_eq!(r.try_slice(0..18).err(), Some(Fault::Bounds));
    assert!(r.try_slice(8..11).unwrap().eq_str("nö"));
}

#[test]
fn text_too_long_to_count() {
    // Doubling a rope shares its tree, so a text of half the range of
    // `usize` takes little room.
    let mut r = Rope::from("ab");
    let mut doublings = 0;
    while r.len() <= usize::MAX / 2 {
        r = r.append(&r);
        doublings += 1;
    }
    assert_eq!(doublings, usize::BITS - 2);
    assert_eq!(r.len(), 1 << (usize::BITS - 1));
    assert!(r.is_balanced());
    assert_eq!(r.try_insert_rope(0usize, &r).err(), Some(Fault::TooLong));
    assert_eq!(r.try_insert_str(0usize, "x").unwrap().len(), r.len() + 1);
    let almost = r.append(&r.delete(0..1));
    assert_eq!(almost.len(), usize::MAX);
    assert_eq!(almost.try_insert_str(0usize, "x").err(), Some(Fault::TooLong));
    assert_eq!(almost.try_insert_rope(0usize, &Rope::new()).unwrap().len(), usize::MAX);
}

#[test]
fn index_gives_the_character_at_an_offset() {
    let an_rope = Rope::from("ab").append(&Rope::from("cd"));
    assert_eq!(an_rope.index(0), "a");
    assert_eq!(an_rope.index(1), "b");
    assert_eq!(an_rope.index(2), "c");
    assert_eq!(an_rope.index(3), "d");
    assert_eq!(an_rope.slice(1..4).index(1), "c");
}

#[test]
fn lines_without_their_line_feeds() {
    fn lines_of(text: &str) -> Vec<String> {
        Rope::from(text).lines().iter().map(|l| l.to_string()).collect()
    }
    assert_eq!(lines_of("one\ntwo"), vec!["one", "two"]);
    assert_eq!(lines_of("one\ntwo\n"), vec!["one", "two"]);
    assert_eq!(lines_of("\n\n"), vec!["", ""]);
    assert_eq!(lines_of("\nx"), vec!["", "x"]);
    assert_eq!(lines_of("x"), vec!["x"]);
    assert_eq!(lines_of(""), Vec::<String>::new());
    let rope = Rope::from("ab\nc").append(&Rope::from("d\n")).append(&Rope::from("\nef"));
    let lines: Vec<String> = rope.lines().iter().map(|l| l.to_string()).collect();
    assert_eq!(lines, vec!["ab", "cd", "", "ef"]);
    let slice = rope.slice(1..7);
    let lines: Vec<String> = slice.lines().iter().map(|l| l.to_string()).collect();
    assert_eq!(lines, vec!["b", "cd", ""]);
}

#[test]
fn slices_show_part_of_the_text() {
    let rope = Rope::from("this is ").append(&Rope::from("an example")).append(&Rope::from(" string"));
    let slice = rope.slice(4..6);
    assert!(slice.eq_str(" i"));
    let slice = rope.slice(5..18);
    assert_eq!(slice.len(), 13);
    assert!(!slice.is_empty());
    assert_eq!(slice.to_string(), "is an example");
    assert_eq!(slice.strings(), vec!["is ", "an example"]);
    assert_eq!(slice.bytes(), b"is an example".to_vec());
    assert_eq!(slice.measure::<Chars>().0, 13);
    assert_eq!(slice.measure::<Lines>().0, 0);
    assert_eq!(slice.to_byte_index(Chars(3)), Some(3));
    assert_eq!(slice.to_byte_index(Chars(13)), Some(13));
    assert_eq!(slice.to_byte_index(Chars(14)), None);
    assert_eq!(slice.to_byte_index(Lines(0)), Some(0));
    assert_eq!(slice.to_byte_index(Lines(1)), None);
    let inner = slice.slice(3..5);
    assert_eq!(inner.to_string(), "an");
    assert_eq!(inner.to_rope(), Rope::from("an"));
    assert!(rope.slice(3..3).is_empty());
    assert_eq!(rope.slice(0..rope.len()).to_rope(), rope);
    let wide = Rope::from("héllo");
    assert!(wide.slice(1..3).eq_str("é"));
    assert!(wide.slice(1..3).is_char_boundary(0));
    assert!(!wide.slice(1..3).is_char_boundary(1));
    assert!(wide.slice(1..3).is_char_boundary(2));
    assert!(!wide.slice(1..3).is_char_boundary(3));
    let lines = Rope::from("hé\nll").append(&Rope::from("ö\n\nx"));
    let slice = lines.slice(1..10);
    assert_eq!(slice.to_string(), "é\nllö\n\n");
    assert_eq!(slice.to_byte_index(Chars(1)), Some(2));
    assert_eq!(slice.to_byte_index(Chars(5)), Some(7));
    assert_eq!(slice.to_byte_index(Lines(1)), Some(3));
    assert_eq!(slice.to_byte_index(Lines(2)), Some(8));
    assert_eq!(slice.to_byte_index(Lines(3)), Some(9));
    assert_eq!(slice.to_byte_index(Lines(4)), None);
    assert_eq!(slice.to_byte_index(9usize), Some(9));
    assert_eq!(slice.to_byte_index(10usize), None);
    assert_eq!(lines.slice(3..3).to_byte_index(Chars(0)), Some(0));
    assert_eq!(lines.slice(3..3).to_byte_index(Chars(1)), None);
}

#[test]
fn walks_over_bytes_and_characters() {
    let rope = Rope::from("hé").append(&Rope::from("llo wörld"));
    assert_eq!(rope.strings(), vec!["hé", "llo wörld"]);
    assert_eq!(rope.bytes(), "héllo wörld".as_bytes().to_vec());
    assert_eq!(rope.chars(), "héllo wörld".chars().collect::<Vec<char>>());
    assert_eq!(rope.char_indices(), "héllo wörld".char_indices().collect::<Vec<(usize, char)>>());
    assert_eq!(rope.to_string(), "héllo wörld");
    assert_eq!(rope.split_whitespace(), vec!["hé", "llo", "wörld"]);
    assert!(rope.bytes_eq("héllo wörld and more".as_bytes()));
    assert!(rope.bytes_eq("hé".as_bytes()));
    assert!(!rope.bytes_eq("he".as_bytes()));
    assert!(Rope::new().strings().is_empty());
    assert!(Rope::new().chars().is_empty());
}

#[test]
fn grapheme_clusters_with_their_offsets() {
    let a = "a\u{310}";
    let e = "e\u{301}";
    let o = "o\u{308}\u{332}";
    let text = format!("{}{}{}\r\n", a, e, o);
    let rope = Rope::from(text.as_str());
    let gr_inds = rope.grapheme_indices();
    let b: &[_] = &[(0, a), (3, e), (6, o), (11, "\r\n")];
    assert_eq!(&gr_inds[..], b);
    assert_eq!(rope.graphemes(), vec![a, e, o, "\r\n"]);
    // Offsets count from the start of the text, whatever the fragments.
    let rope = Rope::from(format!("{}{}", a, e)).append(&Rope::from(format!("{}\r\n", o)));
    assert_eq!(&rope.grapheme_indices()[..], b);
    let b: &[_] = &[(0, e), (3, o)];
    assert_eq!(&rope.slice(3..11).grapheme_indices()[..], b);
    assert_eq!(rope.slice(3..11).graphemes(), vec![e, o]);
}

#[test]
fn words_and_word_bounds() {
    let rope = Rope::from("Brr, it's 29.3°F!");
    let swi1 = rope.split_word_bound_indices();
    let b: &[_] = &[
        (0, "Brr"), (3, ","), (4, " "), (5, "it's"), (9, " "), (10, "29.3"), (14, "°"),
        (16, "F"), (17, "!"),
    ];
    assert_eq!(&swi1[..], b);
    assert_eq!(rope.unicode_words(), vec!["Brr", "it's", "29.3", "F"]);
    assert_eq!(rope.split_word_bounds(), vec!["Brr", ",", " ", "it's", " ", "29.3", "°", "F", "!"]);
    let rope = Rope::from("Brr, ").append(&Rope::from("it's 29.3°F!"));
    assert_eq!(&rope.split_word_bound_indices()[..], b);
    let slice = rope.slice(5..14);
    assert_eq!(slice.unicode_words(), vec!["it's", "29.3"]);
    assert_eq!(slice.split_word_bounds(), vec!["it's", " ", "29.3"]);
    assert_eq!(slice.split_whitespace(), vec!["it's", "29.3"]);
    let b: &[_] = &[(0, "it's"), (4, " "), (5, "29.3")];
    assert_eq!(&slice.split_word_bound_indices()[..], b);
}

#[test]
fn pieces_of_one_fragment() {
    assert_eq!(pieces(&["né"], Pieces::Graphemes), vec!["n", "é"]);
    assert_eq!(pieces(&["a b"], Pieces::UnicodeWords), vec!["a", "b"]);
    assert_eq!(pieces(&["a b"], Pieces::WordBounds), vec!["a", " ", "b"]);
    assert_eq!(pieces(&[" a  b "], Pieces::Whitespace), vec!["a", "b"]);
    assert_eq!(pieces(&["a b", "c"], Pieces::WordBounds), vec!["a", " ", "b", "c"]);
    assert_eq!(indexed_pieces(&["né"], IndexedPieces::Graphemes), vec![(0, "n"), (1, "é")]);
    assert_eq!(
        indexed_pieces(&["a b", "cd", "e"], IndexedPieces::WordBounds),
        vec![(0, "a"), (1, " "), (2, "b"), (3, "cd"), (5, "e")]
    );
    assert!(pieces(&[], Pieces::Graphemes).is_empty());
}

#[test]
fn pieces_move_with_their_fragment() {
    let mut out = vec![(0, "x")];
    push_shifted(&[(0, "a"), (1, " "), (2, "b")], 10, &mut out);
    assert_eq!(out, vec![(0, "x"), (10, "a"), (11, " "), (12, "b")]);
    push_shifted(&[], 99, &mut out);
    assert_eq!(out.len(), 4);
}

#[test]
fn tree_written_out() {
    let link = Node::new_branch(
        Node::new_branch(Node::new_leaf("say \"hi\"".into()), Node::new_leaf("\n".into())),
        Node::new_leaf("0123456789ab".into()),
    );
    assert_eq!(
        link.debug_string(),
        "Branch(9(Branch(8(Leaf(\"say \\\"hi\\\"\"), Leaf(\"\\n\"))), Leaf(\"0123456789ab\")))"
    );
    let long: String = std::iter::repeat('x').take(1234).collect();
    let link = Node::new_branch(Node::new_leaf(long.clone()), Node::new_leaf("y".into()));
    assert_eq!(link.debug_string(), format!("Branch(1234(Leaf({:?}), Leaf(\"y\")))", long));
    assert_eq!(Node::empty().debug_string(), "Leaf(\"\")");
}

#[test]
fn nodes_elide_what_is_empty() {
    let empty = Node::new_leaf(String::new());
    assert!(matches!(empty.node(), Node::Empty));
    assert!(empty.is_empty());
    let leaf = Node::new_leaf("x".into());
    let same = Node::new_branch(Node::empty(), leaf.clone());
    assert!(matches!(same.node(), Node::Leaf(_)));
    let same = Node::new_branch(leaf.clone(), Node::empty());
    assert!(matches!(same.node(), Node::Leaf(_)));
    let none = Node::new_branch(Node::empty(), Node::empty());
    assert!(matches!(none.node(), Node::Empty));
    let two = Node::new_branch(leaf.clone(), leaf);
    assert_eq!(two.len(), 2);
    assert_eq!(two.height(), 1);
    match two.node() {
        Node::Branch(b) => {
            assert_eq!(b.weight().bytes, 1);
            assert_eq!(b.weight().chars, 1);
            assert_eq!(b.weight().lines, 0);
            assert_eq!(b.left().len(), 1);
            assert_eq!(b.right().len(), 1);
        },
        _ => panic!("two leaves make a branch"),
    }
}

#[test]
fn in_place_edits_replace_the_root() {
    let before = Rope::from("abcd");
    let mut rope = before.clone();
    rope.insert_str_in_place(Chars(2), "--");
    assert_eq!(&rope, "ab--cd");
    rope.delete_in_place(Chars(1)..Chars(5));
    assert_eq!(&rope, "ad");
    rope.prepend_in_place(&Rope::from("<"));
    rope.append_in_place(&Rope::from(">"));
    rope.insert_in_place(Chars(2), '|');
    assert_eq!(&rope, "<a|d>");
    rope.extend_chars(&['!']);
    assert_eq!(&rope, "<a|d>!");
    assert_eq!(&before, "abcd");
    assert_eq!(Rope::default(), Rope::new());
    assert_eq!(&Rope::from(Node::new_leaf("leaf".into())), "leaf");
}

#[test]
fn adding_ropes_and_strings() {
    let rope = Rope::from(String::from("ab"));
    assert_eq!(&rope + &Rope::from(String::from("cd")), Rope::from(String::from("abcd")));
    assert_eq!(&rope + "cd", Rope::from(String::from("abcd")));
    assert_eq!(rope.clone() + String::from("cd"), Rope::from(String::from("abcd")));
    assert_eq!(rope.clone() + "cd", Rope::from(String::from("abcd")));
    assert_eq!(rope + Rope::from("cd"), Rope::from(String::from("abcd")));
}

#[test]
fn positions_add_up_and_are_ordered() {
    assert_eq!(<usize as Metric>::zero(), 0);
    assert_eq!(Chars::zero().0, 0);
    assert_eq!(Lines::zero().get(), 0);
    assert_eq!(Chars(2).combine(Chars(3)).0, 5);
    let left_first = Chars(2).combine(Chars(3)).combine(Chars(4));
    let right_first = Chars(2).combine(Chars(3).combine(Chars(4)));
    assert_eq!(left_first.0, right_first.0);
    assert_eq!(Chars(7).combine(Chars::zero()).0, 7);
    assert_eq!(Lines(5).minus(Lines(2)).0, 3);
    assert_eq!(7usize.minus(7), 0);
    assert!(Chars(2).le(Chars(3)));
    assert!(Chars(3).le(Chars(3)));
    assert!(!Chars(4).le(Chars(3)));
    assert!(Lines(0).le(Lines(1)) || Lines(1).le(Lines(0)));
    assert_eq!(Chars::new(9).get(), 9);
    assert_eq!(Chars::measure_str("héllo").0, 5);
    assert_eq!(Lines::measure_str("a\n\nb").0, 2);
    assert_eq!(usize::measure_str("héllo"), 6);
    assert_eq!(Chars::str_to_byte_index("héllo", Chars(2)), Some(3));
    assert_eq!(Chars::str_to_byte_index("héllo", Chars(5)), Some(6));
    assert_eq!(Chars::str_to_byte_index("héllo", Chars(6)), None);
    assert_eq!(Lines::str_to_byte_index("a\n\nb", Lines(2)), Some(3));
    assert_eq!(Lines::str_to_byte_index("a\n\nb", Lines(3)), None);
    assert_eq!(usize::str_to_byte_index("héllo", 2), Some(2));
}

#[test]
fn concatenation_checks_the_balance() {
    let hello = Node::new_leaf("Hello, ".into());
    let world = Node::new_leaf("World!".into());
    let both = NodeLink::concatenate(hello.clone(), world.clone());
    assert_eq!(both.strings(), vec!["Hello, ", "World!"]);
    assert_eq!(both.height(), 1);
    assert_eq!(NodeLink::concatenate(Node::empty(), world.clone()).strings(), vec!["World!"]);
    assert_eq!(NodeLink::concatenate(hello, Node::empty()).strings(), vec!["Hello, "]);
    // A chain that has become too deep for what it holds is built anew.
    let mut chain = Node::empty();
    for c in "abcde".chars() {
        chain = Node::new_branch(chain, Node::new_leaf(c.to_string()));
    }
    assert!(!chain.is_balanced());
    let joined = NodeLink::concatenate(chain, world);
    assert!(joined.is_balanced());
    assert_eq!(joined.strings(), vec!["abcdeWorld!"]);
}

#[test]
fn walking_in_step_over_any_fragments() {
    assert!(fragments_eq(&["ab", "", "cd"], &["", "a", "bc", "", "", "d", ""]));
    assert!(fragments_eq(&[], &["", ""]));
    assert!(fragments_eq(&[""], &[]));
    assert!(!fragments_eq(&["ab", ""], &["a", "", "c"]));
    assert!(!fragments_eq(&["ab"], &["ab", "", "c"]));
    assert!(!fragments_eq(&["", "abc"], &["ab"]));
    assert!(!fragments_eq(&[], &["", "x"]));
}

#[test]
fn one_sided_slices() {
    let rope = Rope::from("this is ").append(&Rope::from("an example"));
    assert_eq!(rope.slice_from(8).to_string(), "an example");
    assert_eq!(rope.slice_to(4).to_string(), "this");
    assert_eq!(rope.slice_all().to_string(), "this is an example");
    assert_eq!(rope.slice_from(18).to_string(), "");
    let slice = rope.slice(5..10);
    assert_eq!(slice.slice_from(3).to_string(), "an");
    assert_eq!(slice.slice_to(2).to_string(), "is");
    assert!(rope.slice(5..7) == rope.slice(2..4));
    assert!(rope.slice(5..7) != rope.slice(2..5));
    assert!(&rope.slice(5..7) == "is");
}

#[test]
fn inserting_one_character() {
    let rope = Rope::from("héllo");
    assert_eq!(&rope.try_insert(Chars(5), '!').unwrap(), "héllo!");
    assert_eq!(&rope.try_insert(1usize, 'ü').unwrap(), "hüéllo");
    assert_eq!(rope.try_insert(2usize, 'x').err(), Some(Fault::Boundary));
    assert_eq!(rope.try_insert(Chars(6), 'x').err(), Some(Fault::Bounds));
}
