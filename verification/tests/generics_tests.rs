use deckgen::generics::{avg, hist, in_range, invert, max, min, reversed};
use deckgen::text::{decimal, text_of};

#[test]
fn test() {
    let mut rng = deckgen::dice::Dice::from_seed(31);
    let mut l = [0usize; 5];
    let mut k = [0u64; 5];
    for i in 0..5 {
        l[i] = rng.below(1, 10);
        k[i] = l[i] as u64;
    }
    println!("{:?}", l);
    println!("{}", hist(&l, "*", 1));
    println!("min: {} avg: {} max: {}", min(&k), avg(&k), max(&k));
    println!("{}", hist(&[4, 3, 6, 2, 5], "**", 2));
    assert!(1 <= min(&k) && min(&k) <= avg(&k) && avg(&k) <= max(&k) && max(&k) <= 9);
}

#[test]
fn hist_draws_the_columns() {
    let plot = hist(&[4, 3, 6, 2, 5], "**", 2);
    let expected = [
        "",
        " 6           **        ",
        " 5           **      **",
        " 4   **      **      **",
        " 3   **  **  **      **",
        " 2   **  **  **  **  **",
        " 1   **  **  **  **  **",
        "    0/1   2   3   4   5+",
        "",
    ]
    .join("\n");
    assert_eq!(plot, expected);
}

#[test]
fn hist_turns_its_symbol_round() {
    assert_eq!(hist(&[1, 0], "ab", 1), "\n 1  ba   \n   0/1  2+\n");
    assert_eq!(hist(&[0], "#", 0), "\n#0/1+\n".replace('#', " "));
    let tall = hist(&[10], "#", 1);
    assert!(tall.starts_with("\n10  #\n 9  #\n"));
}

#[test]
fn invert_turns_a_text_round() {
    assert_eq!(invert(String::from("abc")), "cba");
    assert_eq!(invert(String::new()), "");
    assert_eq!(invert(String::from("a")), "a");
    assert_eq!(invert(String::from("h\u{e9}llo")), "oll\u{e9}h");
    assert_eq!(reversed(&vec!['x', 'y']), vec!['y', 'x']);
}

#[test]
fn statistics_of_scores() {
    assert_eq!(min(&[5, 2, 9]), 2);
    assert_eq!(max(&[5, 2, 9]), 9);
    assert_eq!(avg(&[5, 2, 9]), 5);
    assert_eq!(avg(&[1, 2]), 1);
    assert_eq!(min(&[7]), 7);
    assert_eq!(max(&[7]), 7);
    assert_eq!(avg(&[u64::MAX, u64::MAX]), u64::MAX);
}

#[test]
fn decimal_writes_the_digits() {
    assert_eq!(text_of(&decimal(0)), "0");
    assert_eq!(text_of(&decimal(7)), "7");
    assert_eq!(text_of(&decimal(10)), "10");
    assert_eq!(text_of(&decimal(40_519)), "40519");
}

#[test]
fn a_seed_fixes_the_draws() {
    let mut a = deckgen::dice::Dice::from_seed(99);
    let mut b = deckgen::dice::Dice::from_seed(99);
    let mut seen = [false; 10];
    for _ in 0..200 {
        let x = a.below(3, 13);
        assert_eq!(x, b.below(3, 13));
        assert!(3 <= x && x < 13);
        seen[x - 3] = true;
    }
    assert!(seen.iter().all(|s| *s));
    assert_eq!(a.below_u64(7, 8), 7);
}

#[test]
fn in_range_takes_both_ends() {
    assert!(in_range(0, (0, 1)));
    assert!(in_range(1, (0, 1)));
    assert!(!in_range(2, (0, 1)));
    assert!(!in_range(2, (3, 7)));
    assert!(in_range(7, (3, 7)));
    assert!(in_range(256, (0, 1)));
    assert!(!in_range(255, (0, 1)));
}
