use prime_report::seq_ops::calc_sum;
use prime_report::seq_ops::double_values;
use prime_report::seq_ops::max;
use prime_report::text::get_first_word;
use prime_report::text::match_greeting;
use prime_report::text::no_dangle;
use prime_report::text::str_eq;
use prime_report::text::Greeting;
use prime_report::user::increment_login;
use prime_report::user::User;

#[test]
fn calc_sum_adds_all_elements() {
    let data = [1, 2, 3, 4, 5, 6, 7, 8, 9, 10];
    assert_eq!(calc_sum(&data), 55);
    assert_eq!(calc_sum(&[]), 0);
    assert_eq!(calc_sum(&[-3, 3, 7]), 7);
}

#[test]
fn max_finds_the_largest_element() {
    let data = [1, 2, 3, 4, 5, 6, 7, 8, 9, 10];
    assert_eq!(max(&data), 10);
    assert_eq!(max(&[4]), 4);
    assert_eq!(max(&[-5, -2, -9]), -2);
    assert_eq!(max(&[3, 9, 9, 1]), 9);
}

#[test]
fn double_values_doubles_in_place() {
    let mut data = vec![1, 2, 3, 4, 5];
    double_values(&mut data);
    assert_eq!(data, vec![2, 4, 6, 8, 10]);

    let mut negatives = vec![-1, 0, 7];
    double_values(&mut negatives);
    assert_eq!(negatives, vec![-2, 0, 14]);
}

#[test]
fn no_dangle_returns_owned_hello() {
    assert_eq!(no_dangle(), "hello");
}

#[test]
fn str_eq_compares_exactly() {
    assert!(str_eq("abc", "abc"));
    assert!(!str_eq("abc", "abd"));
    assert!(!str_eq("abc", "abcd"));
    assert!(str_eq("", ""));
}

#[test]
fn match_greeting_classifies() {
    assert_eq!(match_greeting("Hello"), Greeting::English);
    assert_eq!(match_greeting("Hola"), Greeting::Spanish);
    assert_eq!(match_greeting("Hello, Rust World!"), Greeting::Other);
    assert_eq!(match_greeting(""), Greeting::Other);
}

#[test]
fn get_first_word_cuts_at_first_space() {
    let message = String::from("Hello, Rust World!");
    assert_eq!(get_first_word(&message), Some("Hello,"));
    assert_eq!(get_first_word("single"), Some("single"));
    assert_eq!(get_first_word(""), None);
    assert_eq!(get_first_word(" leading"), Some(""));
}

#[test]
fn increment_login_raises_count_by_one() {
    let mut user = User {
        username: String::from("alice"),
        email: String::from("alice@example.com"),
        sign_in_count: 0,
        active: true,
    };
    increment_login(&mut user);
    assert_eq!(user.sign_in_count, 1);
    increment_login(&mut user);
    assert_eq!(user.sign_in_count, 2);
    assert_eq!(user.username, "alice");
    assert_eq!(user.email, "alice@example.com");
    assert!(user.active);
}
