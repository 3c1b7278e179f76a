use macmon::decimal::{decimal, signed_decimal};
use macmon::text::{align_left, align_right, cat, extend, fill_zeros, join, repeat, replace};

#[test]
fn numbers() {
    for n in [0, 7, 10, 99, 100, 12_345, u64::MAX] {
        assert_eq!(decimal(n), n.to_string());
    }
    for n in [0, 7, -7, -10, i64::MAX, i64::MIN] {
        assert_eq!(signed_decimal(n), n.to_string());
    }
}

#[test]
fn columns() {
    for word in ["", "a", "°C", "abcdef", "abcdefgh"] {
        for w in 0..9 {
            assert_eq!(align_left(word, w), format!("{:<1$}", word, w));
            assert_eq!(align_right(word, w), format!("{:>1$}", word, w));
        }
    }
    assert_eq!(fill_zeros("7", 3), "007");
    assert_eq!(fill_zeros("1234", 3), "1234");
}

#[test]
fn pieces() {
    assert_eq!(repeat('█', 3), "███");
    assert_eq!(repeat('x', 0), "");
    assert_eq!(cat("a", "bc"), "abc");
    assert_eq!(replace("Apple M4 Pro", ' ', '_'), "Apple_M4_Pro");
    assert_eq!(replace(" – ", '–', '-'), " - ");
    let one = |t: &str| t.to_string();
    assert_eq!(join(&vec![], "\n"), "");
    assert_eq!(join(&vec![one("a")], "\n"), "a");
    assert_eq!(join(&vec![one("a"), one(""), one("b")], " · "), "a ·  · b");
    let mut lines = vec![one("a")];
    extend(&mut lines, vec![one("b"), one("")]);
    assert_eq!(join(&lines, "\n"), "a\nb\n");
}
