use geng::graph6::{encode_graph_size, g6_body_len, g6_len, size_len};
use geng::gtools::g6char::G6Char;
use geng::gtools::g6string::{graph_size, G6String};
use geng::nauty::Graph;

#[test]
fn size_header_lengths() {
    assert_eq!(size_len(1), 1);
    assert_eq!(size_len(62), 1);
    assert_eq!(size_len(63), 4);
    assert_eq!(size_len(258047), 4);
    assert_eq!(size_len(258048), 8);
}

#[test]
fn body_lengths() {
    assert_eq!(g6_body_len(5), 2);
    assert_eq!(g6_body_len(1), 0);
    assert_eq!(g6_body_len(12), 11);
    assert_eq!(g6_len(5), 3);
}

#[test]
fn size_header_bytes() {
    assert_eq!(encode_graph_size(5), vec![68]);
    assert_eq!(encode_graph_size(62), vec![125]);
    assert_eq!(encode_graph_size(63), vec![126, 63, 63, 126]);
    assert_eq!(encode_graph_size(258048), vec![126, 126, 63, 63, 63, 126, 63, 63]);
}

#[test]
fn graph_size_reads_headers() {
    let mut pos = 0;
    assert_eq!(graph_size(&[68, 81, 99], &mut pos), Ok(5));
    assert_eq!(pos, 1);
    let mut pos = 0;
    assert_eq!(graph_size(&[126, 63, 63, 126], &mut pos), Ok(63));
    assert_eq!(pos, 4);
    let mut pos = 0;
    assert!(graph_size(&[10], &mut pos).is_err());
}

#[test]
fn g6char_push_and_pop() {
    let mut c = G6Char::new();
    assert!(c.is_empty());
    for b in [true, false, true, true, false, false] {
        c.push_back(b);
    }
    assert!(c.is_full());
    assert_eq!(c.len(), 6);
    assert_eq!(c.to_char(), 63 + 0b101100);
    let mut d = G6Char::try_from_byte(63 + 0b100001).unwrap();
    assert!(d.pop_front());
    assert!(!d.pop_front());
    assert!(G6Char::try_from_byte(10).is_err());
}

#[test]
fn g6string_of_example() {
    // 2---0---4---3---1
    let g = Graph::from_graph6("DQc".to_owned()).unwrap();
    let s = G6String::from(&g);
    assert_eq!(s.as_bytes(), &vec![68, 81, 99, 10]);
    assert_eq!(s.to_string(), "DQc\n");
}

#[test]
fn g6string_push_fills_body() {
    let mut s = G6String::new(3);
    assert_eq!(s.as_bytes(), &vec![66]);
    for b in [true, false, true, false, false, false] {
        s.push(b);
    }
    assert_eq!(s.as_bytes(), &vec![66, 103]);
}
