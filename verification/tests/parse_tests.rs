use dijkstra_graph::{from_lines, from_list, BuildError};

fn lines(texts: &[&str]) -> Vec<String> {
    let mut v: Vec<String> = Vec::new();
    for t in texts {
        v.push(t.to_string());
    }
    v
}

#[test]
fn test_from_lines_correct() {
    let basic = from_lines(&lines(&["a b 3", "a c 5", "b c 1"]));
    assert!(basic.is_ok());

    let g = basic.unwrap();
    assert_eq!(g.weight("a", "b"), Some(3));
    assert_eq!(g.weight("b", "a"), Some(3));

    assert_eq!(g.weight("a", "c"), Some(5));
    assert_eq!(g.weight("c", "a"), Some(5));

    assert_eq!(g.weight("b", "c"), Some(1));
    assert_eq!(g.weight("c", "b"), Some(1));

    let duplicates = from_lines(&lines(&["a b 9", "a b 3"]));
    assert!(duplicates.is_ok());

    let g = duplicates.unwrap();
    assert_eq!(g.weight("a", "b"), Some(3));
    assert_eq!(g.weight("b", "a"), Some(3));
}

#[test]
fn test_from_lines_invalid() {
    let invalid_weight = from_lines(&lines(&["a b x"]));
    assert!(invalid_weight.is_err());

    let result = from_lines(&lines(&["a b"]));
    assert!(result.is_err());
}

#[test]
fn test_source_matches_list() {
    let g1 = from_lines(&lines(&["a b 3", "a c 5", "b c 1"])).unwrap();
    let g2 = from_list(&[("a", "b", 3), ("a", "c", 5), ("b", "c", 1)]);
    assert_eq!(g1.vertex_count(), g2.vertex_count());
    for a in ["a", "b", "c"] {
        for b in ["a", "b", "c"] {
            assert_eq!(g1.weight(a, b), g2.weight(a, b));
        }
    }
}

#[test]
fn test_missing_weight_field() {
    assert_eq!(from_lines(&lines(&["a b"])).unwrap_err(), BuildError::InvalidSyntax);
}

#[test]
fn test_non_numeric_weight() {
    assert_eq!(from_lines(&lines(&["a b x"])).unwrap_err(), BuildError::InvalidWeight);
}

#[test]
fn test_syntax_rejection_field_counts() {
    assert_eq!(from_lines(&lines(&["a"])).unwrap_err(), BuildError::InvalidSyntax);
    assert_eq!(from_lines(&lines(&["a b 1 2"])).unwrap_err(), BuildError::InvalidSyntax);
    assert_eq!(from_lines(&lines(&[""])).unwrap_err(), BuildError::InvalidSyntax);
    assert_eq!(from_lines(&lines(&["a  b 1"])).unwrap_err(), BuildError::InvalidSyntax);
}

#[test]
fn test_weight_rejection() {
    assert_eq!(from_lines(&lines(&["a b -5"])).unwrap_err(), BuildError::InvalidWeight);
    assert_eq!(from_lines(&lines(&["a b 1.5"])).unwrap_err(), BuildError::InvalidWeight);
    assert_eq!(from_lines(&lines(&["a b "])).unwrap_err(), BuildError::InvalidSyntax);
    assert_eq!(
        from_lines(&lines(&["a b 999999999999999999999999999999"])).unwrap_err(),
        BuildError::InvalidWeight,
    );
}

#[test]
fn test_first_error_wins() {
    let r = from_lines(&lines(&["a b 1", "a b", "a b x"]));
    assert_eq!(r.unwrap_err(), BuildError::InvalidSyntax);
    let r = from_lines(&lines(&["a b 1", "a b x", "c d"]));
    assert_eq!(r.unwrap_err(), BuildError::InvalidWeight);
}

#[test]
fn test_trim_and_plus_sign() {
    let g = from_lines(&lines(&["  a b 3\t"])).unwrap();
    assert_eq!(g.weight("a", "b"), Some(3));
    let g = from_lines(&lines(&["a b +4"])).unwrap();
    assert_eq!(g.weight("a", "b"), Some(4));
    let g = from_lines(&lines(&["a b 007"])).unwrap();
    assert_eq!(g.weight("a", "b"), Some(7));
}

#[test]
fn test_empty_source() {
    let g = from_lines(&Vec::new()).unwrap();
    assert_eq!(g.vertex_count(), 0);
}

#[test]
fn test_last_write_wins_across_orientations() {
    let g = from_lines(&lines(&["a b 3", "c d 1", "b a 8"])).unwrap();
    assert_eq!(g.weight("a", "b"), Some(8));
    assert_eq!(g.weight("b", "a"), Some(8));
    assert_eq!(g.weight("c", "d"), Some(1));
}

#[test]
fn test_self_loop_line() {
    let g = from_lines(&lines(&["a a 5"])).unwrap();
    assert_eq!(g.weight("a", "a"), Some(5));
    assert_eq!(g.vertex_count(), 1);
}
