use genezip::huffman::builder::create_huffman;
use genezip::huffman::frequency::create_frequency_table;
use genezip::huffman::tree::{HuffmanError, HuffmanTree, Node};
use genezip::zip::{GeneZipError, GeneZipper};

#[test]
pub fn test_encodings_work_chars() {
    let input: Vec<char> = "The quick brown fox jumped over my fat dog Teller, they soon found out they had much in common over tea".chars().collect();
    let huffman = HuffmanTree::from_data(&input).expect("non-empty input");

    for character in input {
        let directions_to = huffman.encodings_to(&character);
        assert!(directions_to.is_some());
        let result_to = huffman.get_to(directions_to.unwrap().clone()).expect("Directions lead somewhere");
        assert_eq!(character, result_to)
    }
}

#[test]
pub fn test_encodings_work_strings() {
    let input: Vec<String> = "My name is Braden Everson woohoo I sure do love Rust it is cool and good".split(" ").map(|str| str.to_string()).collect();
    let huffman = HuffmanTree::from_data(&input).expect("non-empty input");

    for character in input {
        let directions_to = huffman.encodings_to(&character);
        assert!(directions_to.is_some());
        let result_to = huffman.get_to(directions_to.unwrap().clone()).expect("Directions lead somewhere");
        assert_eq!(character, result_to)
    }
}

#[test]
pub fn test_encodings_work_integer_types() {
    let input = vec![1,2,3,4,4,4,4,5,99,150,88,19203480,312432,4132,2,2,2,3,23,24,321,4,1,321,3,12,432,432,14,32];
    let huffman = HuffmanTree::from_data(&input).expect("non-empty input");

    for character in input {
        let directions_to = huffman.encodings_to(&character);
        assert!(directions_to.is_some());
        let result_to = huffman.get_to(directions_to.unwrap().clone()).expect("Directions lead somewhere");
        assert_eq!(character, result_to)
    }
}

fn chars(s: &str) -> Vec<char> {
    s.chars().collect()
}

#[test]
fn frequency_table_counts_in_first_occurrence_order() {
    let table = create_frequency_table(&chars("AAAABBBCCD")).unwrap();
    assert_eq!(table, vec![('A', 4), ('B', 3), ('C', 2), ('D', 1)]);
    let table = create_frequency_table(&chars("abcab")).unwrap();
    assert_eq!(table, vec![('a', 2), ('b', 2), ('c', 1)]);
    let empty: Vec<char> = vec![];
    assert_eq!(create_frequency_table(&empty), Err(HuffmanError::EmptyInputError));
}

fn count_nodes(n: &Node<char>) -> usize {
    1 + n.left.as_ref().map_or(0, |l| count_nodes(l)) + n.right.as_ref().map_or(0, |r| count_nodes(r))
}

#[test]
fn builder_merges_smallest_first() {
    let root = create_huffman(&[('A', 4usize), ('B', 3), ('C', 2), ('D', 1)]).expect("non-empty table");
    assert_eq!(root.freq, 10);
    assert_eq!(root.left.as_ref().unwrap().value, Some('A'));
    assert_eq!(root.left.as_ref().unwrap().freq, 4);
    let right = root.right.as_ref().unwrap();
    assert_eq!(right.freq, 6);
    assert_eq!(right.left.as_ref().unwrap().value, Some('B'));
    assert_eq!(right.left.as_ref().unwrap().freq, 3);
    let low = right.right.as_ref().unwrap();
    assert_eq!(low.freq, 3);
    assert_eq!(low.left.as_ref().unwrap().value, Some('D'));
    assert_eq!(low.right.as_ref().unwrap().value, Some('C'));
    assert_eq!(low.left.as_ref().unwrap().freq, 1);
    assert_eq!(low.right.as_ref().unwrap().freq, 2);
    assert_eq!(count_nodes(&root), 7);
    let none: Vec<(char, usize)> = vec![];
    assert!(create_huffman(&none).is_none());
}

#[test]
fn example_codes_and_decoding() {
    let t = HuffmanTree::from_data(&chars("AAAABBBCCD")).unwrap();
    assert_eq!(t.encode(&'A'), Ok(vec![false]));
    assert_eq!(t.encode(&'B'), Ok(vec![true, false]));
    assert_eq!(t.encode(&'D'), Ok(vec![true, true, false]));
    assert_eq!(t.encode(&'C'), Ok(vec![true, true, true]));
    assert!(t.encode(&'A').unwrap().len() < t.encode(&'D').unwrap().len());
    let message = chars("AABCD");
    let decoded: Vec<char> = message
        .iter()
        .map(|c| t.get_to(t.encode(c).unwrap()).unwrap())
        .collect();
    assert_eq!(decoded, message);
}

#[test]
fn single_symbol_tree_uses_one_bit() {
    let t = HuffmanTree::from_data(&chars("XXX")).unwrap();
    let code = t.encode(&'X').unwrap();
    assert_eq!(code, vec![false]);
    assert_eq!(t.get_to(code), Ok('X'));
    assert_eq!(t.get_to(vec![]), Err(HuffmanError::IncompletePathError));
    assert_eq!(t.get_to(vec![true]), Err(HuffmanError::DeadEndError));
    assert_eq!(t.get_to(vec![false, false]), Err(HuffmanError::DeadEndError));
    assert_eq!(t.to_records(), vec![Some('X')]);
}

#[test]
fn unknown_symbol_is_rejected() {
    let t = HuffmanTree::from_data(&chars("AAAABBBCCD")).unwrap();
    assert_eq!(t.encode(&'Y'), Err(HuffmanError::UnknownSymbolError));
    assert!(t.encodings_to(&'Y').is_none());
}

#[test]
fn empty_input_is_rejected() {
    let empty: Vec<u32> = vec![];
    assert!(matches!(HuffmanTree::from_data(&empty), Err(HuffmanError::EmptyInputError)));
}

#[test]
fn malformed_paths_fail_to_decode() {
    let t = HuffmanTree::from_data(&chars("ABCD")).unwrap();
    assert_eq!(t.get_to(vec![true, true, true, true]), Err(HuffmanError::DeadEndError));
    assert_eq!(t.get_to(vec![true]), Err(HuffmanError::IncompletePathError));
    assert_eq!(t.get_to(vec![]), Err(HuffmanError::IncompletePathError));
    for c in chars("ABCD") {
        assert_eq!(t.encode(&c).unwrap().len(), 2);
    }
}

#[test]
fn codes_are_prefix_free() {
    let input = chars("the quick brown fox jumps over the lazy dog");
    let t = HuffmanTree::from_data(&input).unwrap();
    let mut codes: Vec<Vec<bool>> = vec![];
    let mut seen: Vec<char> = vec![];
    for c in input {
        if !seen.contains(&c) {
            seen.push(c);
            codes.push(t.encode(&c).unwrap());
        }
    }
    for i in 0..codes.len() {
        for j in 0..codes.len() {
            if i != j {
                assert!(!codes[j].starts_with(&codes[i]));
            }
        }
    }
}

#[test]
fn records_round_trip() {
    let input = chars("mississippi river");
    let t = HuffmanTree::from_data(&input).unwrap();
    let recs = t.to_records();
    let back = HuffmanTree::from_records(&recs).unwrap();
    assert_eq!(back.to_records(), recs);
    for c in input {
        let code = t.encode(&c).unwrap();
        assert_eq!(back.get_to(code.clone()), Ok(c));
        assert_eq!(back.encode(&c), Ok(code));
    }
}

#[test]
fn malformed_records_are_rejected() {
    let empty: Vec<Option<char>> = vec![];
    assert!(matches!(HuffmanTree::from_records(&empty), Err(HuffmanError::MalformedTreeError)));
    assert!(matches!(HuffmanTree::from_records(&vec![None, Some('a')]), Err(HuffmanError::MalformedTreeError)));
    assert!(matches!(HuffmanTree::from_records(&vec![Some('a'), Some('b')]), Err(HuffmanError::MalformedTreeError)));
    let t = HuffmanTree::from_records(&vec![None, Some('a'), Some('b')]).unwrap();
    assert_eq!(t.encode(&'a'), Ok(vec![false]));
    assert_eq!(t.encode(&'b'), Ok(vec![true]));
}

#[test]
fn nodes_build_and_merge() {
    let leaf = Node::new(3, Some('a'));
    assert_eq!(leaf.freq, 3);
    assert!(leaf.left.is_none() && leaf.right.is_none());
    let a = Node::new_branch(3, Some('a'));
    let b = Node::new_branch(4, Some('b'));
    let m = Node::merge(a, b);
    assert_eq!(m.freq, 7);
    assert_eq!(m.value, None);
    assert_eq!(m.left.as_ref().unwrap().value, Some('a'));
    assert_eq!(m.right.as_ref().unwrap().value, Some('b'));
    let n = Node::new(0, None).with_left(Node::new_branch(1, Some('x'))).with_right(Node::new_branch(2, Some('y')));
    assert_eq!(n.left.as_ref().unwrap().value, Some('x'));
    assert_eq!(n.right.as_ref().unwrap().value, Some('y'));
}

#[test]
fn zipper_round_trip_through_json() {
    let text = String::from("abracadabra, said the wizard");
    let z = GeneZipper::for_compression(text.clone()).ok().unwrap();
    let paths = z.compress().unwrap();
    assert_eq!(paths.len(), text.chars().count());
    let json = z.compress_to_json().ok().unwrap();
    assert!(json.starts_with("[["));
    let small = GeneZipper::for_compression(String::from("aab")).ok().unwrap();
    assert_eq!(small.compress_to_json().ok().unwrap(), "[[true],[true],[false]]");
    let key = z.key_json().ok().unwrap();
    assert!(key.contains("\"a\""));
    let d = GeneZipper::for_decompression(json, &key).ok().unwrap();
    assert_eq!(d.decompress().ok().unwrap(), text);
    assert_eq!(d.decode_paths(&paths), Ok(text));
}

#[test]
fn zipper_errors() {
    assert!(matches!(GeneZipper::for_compression(String::new()), Err(HuffmanError::EmptyInputError)));
    assert!(matches!(GeneZipper::for_decompression(String::from("[]"), "not json"), Err(GeneZipError::SerialzeError(_))));
    assert!(matches!(
        GeneZipper::for_decompression(String::from("[]"), "[\"a\",\"b\"]"),
        Err(GeneZipError::HuffmanError(HuffmanError::MalformedTreeError))
    ));
    let d = GeneZipper::for_decompression(String::from("[[true,true,true,true]]"), "[null,\"a\",\"b\"]").ok().unwrap();
    assert!(matches!(d.decompress(), Err(GeneZipError::HuffmanError(HuffmanError::DeadEndError))));
    let bad = GeneZipper::for_decompression(String::from("nope"), "[null,\"a\",\"b\"]").ok().unwrap();
    assert!(matches!(bad.decompress(), Err(GeneZipError::SerialzeError(_))));
    let ok = GeneZipper::for_decompression(String::from("[[false],[true],[false]]"), "[null,\"a\",\"b\"]").ok().unwrap();
    assert_eq!(ok.decompress().ok().unwrap(), "aba");
}
