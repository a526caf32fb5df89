use assistant_rs::metrics::{leven_dist, wagner_lev, TwoDimBuffer};

#[test]
fn test_leven() {
    let wa = "sunday";
    let wb = "saturday";
    assert_eq!(3, leven_dist(&wa, &wb));
}

#[test]
fn test_substring_leven() {
    let wa = "day";
    let wb = "saturd by";
    assert_eq!(2, wagner_lev(&wa, &wb, true));
}

#[test]
fn kitten_to_sitting() {
    assert_eq!(3, leven_dist("kitten", "sitting"));
}

#[test]
fn distance_to_self_is_zero() {
    for s in ["", "a", "fire fox", "saturday", "f two"] {
        assert_eq!(0, leven_dist(s, s));
    }
}

#[test]
fn distance_is_symmetric() {
    let samples = ["", "abc", "sunday", "saturday", "new window", "you tube"];
    for a in samples {
        for b in samples {
            assert_eq!(leven_dist(a, b), leven_dist(b, a));
        }
    }
}

#[test]
fn distance_obeys_triangle_inequality() {
    let samples = ["", "kitten", "sitting", "mitten", "fire fox", "firefox", "x"];
    for a in samples {
        for b in samples {
            for c in samples {
                assert!(leven_dist(a, c) <= leven_dist(a, b) + leven_dist(b, c));
            }
        }
    }
}

#[test]
fn distance_to_empty_is_length() {
    assert_eq!(5, leven_dist("hello", ""));
    assert_eq!(4, leven_dist("", "four"));
}

#[test]
fn substring_distance_of_exact_infix_is_zero() {
    assert_eq!(0, wagner_lev("tur", "saturday", true));
    assert_eq!(0, wagner_lev("", "saturday", true));
    assert_eq!(3, wagner_lev("abc", "", true));
}

#[test]
fn two_dim_buffer_indexes_row_major() {
    let mut buf: TwoDimBuffer<usize> = TwoDimBuffer::new_with_size(3, 2);
    assert_eq!(Some(&0), buf.get(2, 1));
    if let Some(cell) = buf.get_mut(1, 1) {
        *cell = 9;
    }
    assert_eq!(Some(&9), buf.get(1, 1));
    assert_eq!(Some(&9), buf.get(4, 0));
    assert_eq!(None, buf.get(0, 2));
    let wrapped = TwoDimBuffer::new(2, vec![1, 2, 3, 4]);
    assert_eq!(Some(&3), wrapped.get(0, 1));
}
