use an_rope::{Chars, Lines, Node, NodeLink, Rope};
use quickcheck::QuickCheck;

fn check2(prop: fn(String, usize) -> bool) {
    QuickCheck::new().tests(200).quickcheck(prop);
}

fn check3(prop: fn(String, String, usize) -> bool) {
    QuickCheck::new().tests(200).quickcheck(prop);
}

fn check4(prop: fn(String, usize, usize) -> bool) {
    QuickCheck::new().tests(200).quickcheck(prop);
}

/// A rope of `text` made of many small fragments, so that its tree has branches.
fn in_pieces(text: &str) -> Rope {
    let mut rope = Rope::new();
    for ch in text.chars() {
        rope = rope.append(&Rope::from(ch.to_string()));
    }
    rope
}

fn split_then_concat_bytes(text: String, at: usize) -> bool {
    let rope = in_pieces(&text);
    let at = at % (rope.len() + 1);
    if !rope.is_char_boundary(at) {
        return true;
    }
    let (head, tail) = rope.split(at);
    head.len() == at && head.append(&tail) == rope && &head.append(&tail) == text.as_str()
}

fn split_then_concat_chars(text: String, at: usize) -> bool {
    let rope = in_pieces(&text);
    let at = at % (text.chars().count() + 1);
    let (head, tail) = rope.split(Chars(at));
    head.measure::<Chars>().0 == at && head.append(&tail) == rope
}

fn split_then_concat_lines(text: String, at: usize) -> bool {
    let text = text.replace('x', "\n");
    let rope = in_pieces(&text);
    let at = at % (text.matches('\n').count() + 1);
    let (head, tail) = rope.split(Lines(at));
    head.measure::<Lines>().0 == at && head.append(&tail) == rope
}

#[test]
fn split_concat_round_trip_bytes() {
    check2(split_then_concat_bytes);
}

#[test]
fn split_concat_round_trip_chars() {
    check2(split_then_concat_chars);
}

#[test]
fn split_concat_round_trip_lines() {
    check2(split_then_concat_lines);
}

fn insert_at_the_ends(text: String, other: String, _at: usize) -> bool {
    let rope = in_pieces(&text);
    let x = Rope::from(other);
    rope.insert_rope(0, &x) == x.append(&rope)
        && rope.insert_rope(rope.len(), &x) == rope.append(&x)
        && rope.insert_rope(Chars(0), &x) == rope.prepend(&x)
        && rope.insert_rope(rope.measure::<Chars>(), &x) == rope.append(&x)
        && rope.insert_rope(Lines(0), &x) == rope.prepend(&x)
        && (rope.measure::<Lines>().0 == 0
            || rope.insert_rope(rope.measure::<Lines>(), &x) == rope.append(&x))
        && (rope.measure::<Lines>().0 > 0 || rope.is_empty()
            || rope.insert_rope(rope.measure::<Lines>(), &x) == rope.prepend(&x))
}

#[test]
fn insertion_boundary_identity() {
    check3(insert_at_the_ends);
}

#[test]
fn insertion_at_the_measure_in_lines() {
    let x = Rope::from("X");
    // The last line of a text that does not end in a line feed starts
    // before the end; insertion at the measure appends all the same.
    let rope = Rope::from("one\ntwo");
    assert_eq!(rope.measure::<Lines>().0, 1);
    assert_eq!(&rope.insert_rope(Lines(1), &x), "one\ntwoX");
    assert_eq!(&rope.insert_str(Lines(1), "X"), "one\ntwoX");
    assert_eq!(&rope.insert(Lines(1), 'X'), "one\ntwoX");
    assert_eq!(rope.insert_rope(Lines(1), &x), rope.append(&x));
    let mut in_place = rope.clone();
    in_place.insert_rope_in_place(Lines(1), &x);
    assert_eq!(&in_place, "one\ntwoX");
    assert_eq!(&rope.try_insert_rope(Lines(1), &x).unwrap(), "one\ntwoX");
    // A position before the measure is where it cuts the text.
    let longer = Rope::from("one\ntwo\nthree");
    assert_eq!(&longer.insert_rope(Lines(1), &x), "one\nXtwo\nthree");
    assert_eq!(&longer.insert_rope(Lines(2), &x), "one\ntwo\nthreeX");
    let ends_in_line_feed = Rope::from("one\ntwo\n");
    assert_eq!(&ends_in_line_feed.insert_rope(Lines(2), &x), "one\ntwo\nX");
    // Zero comes first: a text without line feeds measures nothing, and
    // insertion at zero prepends.
    let flat = Rope::from("ab");
    assert_eq!(flat.measure::<Lines>().0, 0);
    assert_eq!(&flat.insert_rope(Lines(0), &x), "Xab");
    assert_eq!(flat.insert_rope(Lines(0), &x), flat.prepend(&x));
    assert_eq!(&Rope::new().insert_rope(Lines(0), &x), "X");
}

#[test]
fn delete_then_insert_in_lines() {
    let rope = Rope::from("a\nb\nc\n");
    let cut = rope.slice(2..4).to_rope();
    let rest = rope.delete(Lines(1)..Lines(2));
    assert_eq!(&rest, "a\nc\n");
    assert_eq!(rest.insert_rope(Lines(1), &cut), rope);
    // Where the text goes on after the range without another line feed,
    // the range started at the measure of what is left: insertion appends.
    let rope = Rope::from("a\nb\nc");
    let cut = rope.slice(2..4).to_rope();
    let rest = rope.delete(Lines(1)..Lines(2));
    assert_eq!(&rest, "a\nc");
    assert_eq!(&rest.insert_rope(Lines(1), &cut), "a\ncb\n");
}

fn delete_then_insert(text: String, a: usize, b: usize) -> bool {
    let rope = in_pieces(&text);
    let count = text.chars().count();
    let (a, b) = (a % (count + 1), b % (count + 1));
    let (start, end) = if a <= b { (a, b) } else { (b, a) };
    let from = rope.to_byte_index(Chars(start)).unwrap();
    let to = rope.to_byte_index(Chars(end)).unwrap();
    let cut = rope.slice(from..to).to_rope();
    let rest = rope.delete(Chars(start)..Chars(end));
    rest.len() + cut.len() == rope.len() && rest.insert_rope(Chars(start), &cut) == rope
}

#[test]
fn delete_insert_inverse() {
    check4(delete_then_insert);
}

#[test]
fn delete_insert_inverse_on_bytes() {
    let rope = Rope::from("this is not fine");
    let cut = rope.slice(8..12).to_rope();
    assert_eq!(&cut, "not ");
    let rest = rope.delete(8..12);
    assert_eq!(&rest, "this is fine");
    assert_eq!(rest.insert_rope(8, &cut), rope);
}

fn fib(n: usize) -> u128 {
    let (mut a, mut b) = (0u128, 1u128);
    for _ in 0..n {
        let next = a + b;
        a = b;
        b = next;
    }
    a
}

/// Holds every subtree to the balance criterion, by hand.
fn balanced_all_the_way(link: &NodeLink) -> bool {
    let enough = link.len() as u128 + 1 >= fib(link.height() + 2);
    match link.node() {
        Node::Branch(b) => enough && balanced_all_the_way(b.left()) && balanced_all_the_way(b.right()),
        _ => enough,
    }
}

/// A tree that leans to the left, one leaf deeper with every fragment.
fn chain(frags: &[String]) -> NodeLink {
    let mut link = Node::empty();
    for frag in frags {
        link = Node::new_branch(link, Node::new_leaf(frag.clone()));
    }
    link
}

#[test]
fn balance_convergence() {
    let frags: Vec<String> = (0..200).map(|i| format!("{:040}", i)).collect();
    let lopsided = chain(&frags);
    assert_eq!(lopsided.height(), 199);
    assert!(!lopsided.is_balanced());
    assert!(!balanced_all_the_way(&lopsided));
    let rebuilt = lopsided.rebalance();
    assert!(rebuilt.is_balanced());
    assert!(balanced_all_the_way(&rebuilt));
    assert_eq!(rebuilt.len(), 200 * 40);
    assert_eq!(rebuilt.bytes_eq(frags.concat().as_bytes()), true);
    // 200 fragments of 40 bytes are too long to be joined: 200 leaves, depth 8.
    assert_eq!(rebuilt.strings().len(), 200);
    assert_eq!(rebuilt.height(), 8);
}

#[test]
fn balance_criterion_exact_values() {
    // One branch over two leaves of one byte: depth 1 asks for fib(3) - 1 = 1 byte.
    let two = Node::new_branch(Node::new_leaf("a".into()), Node::new_leaf("b".into()));
    assert_eq!(two.height(), 1);
    assert!(two.is_balanced());
    // Depth 4 asks for fib(6) - 1 = 7 bytes: a chain of five leaves of one
    // byte has five and six leaves have six, too few; depth 3 asks for
    // fib(5) - 1 = 4 and a chain of four leaves has them.
    let letters: Vec<String> = "abcdef".chars().map(|c| c.to_string()).collect();
    assert!(chain(&letters[..4]).is_balanced());
    assert_eq!(chain(&letters[..5]).height(), 4);
    assert!(!chain(&letters[..5]).is_balanced());
    assert!(!chain(&letters[..6]).is_balanced());
}

#[test]
fn rebuilding_joins_short_fragments() {
    let letters: Vec<String> = "abcdefghij".chars().map(|c| c.to_string()).collect();
    let lopsided = chain(&letters);
    assert!(!lopsided.is_balanced());
    let rebuilt = lopsided.rebalance();
    assert_eq!(rebuilt.strings(), vec!["abcdefghij"]);
    assert_eq!(rebuilt.height(), 0);
    // Fragments are joined up to 64 bytes, and no further.
    let frags: Vec<String> = (0..9).map(|i| format!("{:030}", i)).collect();
    let rebuilt = chain(&frags).rebuild();
    let lens: Vec<usize> = rebuilt.strings().iter().map(|s| s.len()).collect();
    assert_eq!(lens, vec![60, 60, 60, 60, 30]);
    assert_eq!(rebuilt.height(), 3);
}

#[test]
fn balanced_tree_is_left_alone() {
    let two = Node::new_branch(Node::new_leaf("Hello, ".into()), Node::new_leaf("World!".into()));
    let same = two.rebalance();
    assert_eq!(same.strings(), vec!["Hello, ", "World!"]);
    assert_eq!(same.height(), 1);
}

fn equality_laws(text: String, other: String, at: usize) -> bool {
    let whole = Rope::from(text.clone());
    let pieces = in_pieces(&text);
    let mut cut = at % (text.len() + 1);
    while !text.is_char_boundary(cut) {
        cut -= 1;
    }
    let halves = Rope::from(&text[..cut]).append(&Rope::from(&text[cut..]));
    let different = Rope::from(other.clone());
    whole == whole
        && (whole == pieces) && (pieces == whole)
        && whole == halves && halves == pieces
        && (whole == different) == (text == other)
        && (different == whole) == (text == other)
        && (text.len() == other.len() || whole != different)
}

#[test]
fn equality() {
    check3(equality_laws);
}

#[test]
fn ropes_of_different_length_are_never_equal() {
    assert!(Rope::from("abcd") != Rope::from("ab"));
    assert!(Rope::from("ab") != Rope::from("abcd"));
    assert!(Rope::from("abcd") != Rope::from("dcab"));
    assert!(&Rope::from("abcd") != "ab");
    assert!(Rope::from("abcd") != String::from("abcde"));
    assert!(Rope::from("abcd") == String::from("abcd"));
    assert!(Rope::new() == Rope::from(""));
}

#[test]
fn insert_char_at_start_leaves_receiver() {
    let an_rope = Rope::from("bcd");
    let new_rope = an_rope.insert(0, 'a');
    assert_eq!(new_rope, Rope::from("abcd"));
    assert_eq!(an_rope, Rope::from("bcd"));
}

#[test]
fn insert_rope_in_the_middle_leaves_receiver() {
    let an_rope = Rope::from("ad");
    let new_rope = an_rope.insert_rope(1, &Rope::from("bc"));
    assert_eq!(&new_rope, "abcd");
    assert_eq!(&an_rope, "ad");
}

#[test]
fn split_in_two() {
    let an_rope = Rope::from(String::from("abcd"));
    let (ab, cd) = an_rope.split(2);
    assert_eq!(ab, Rope::from(String::from("ab")));
    assert_eq!(cd, Rope::from(String::from("cd")));
    assert_eq!(&an_rope, "abcd");
}

#[test]
fn slice_char_indices_are_those_of_the_str_slice() {
    let s = "aaaaabbbbbbccccccccccccdefgdefgaabababab";
    let rope = Rope::from("aaaaa")
        .append(&Rope::from("bbbbbb"))
        .append(&Rope::from("cccccccccccc"))
        .append(&Rope::from("defgdefgaabababab"));
    for rope in [Rope::from(s), rope] {
        let slice = rope.slice(4..8);
        let found = slice.char_indices();
        let expected: Vec<(usize, char)> = s[4..8].char_indices().collect();
        assert_eq!(found, expected);
        assert_eq!(slice.chars(), s[4..8].chars().collect::<Vec<char>>());
    }
}

#[test]
fn thousand_appends_then_rebalance() {
    let base: String = std::iter::repeat('a').take(10_000).collect();
    let mut r = Rope::from(base);
    for _ in 0..1000 {
        let more: String = std::iter::repeat('b').take(100).collect();
        r = r.append(&Rope::from(more));
    }
    r.rebalance();
    assert_eq!(r.is_balanced(), true);
    assert_eq!(r.len(), 110_000);
    assert!(fib(r.height() + 2) <= r.len() as u128 + 1);
}
