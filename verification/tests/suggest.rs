use olivaw::suggest::{did_you_mean, levenshtein};

#[test]
fn distance_basics() {
    assert_eq!(levenshtein("", ""), 0);
    assert_eq!(levenshtein("abc", ""), 3);
    assert_eq!(levenshtein("", "abc"), 3);
    assert_eq!(levenshtein("abc", "abc"), 0);
    assert_eq!(levenshtein("kitten", "sitting"), 3);
    assert_eq!(levenshtein("mpu650", "mpu6050"), 1);
}

#[test]
fn suggests_close_names() {
    let names = ["sensors/mpu6050", "sensors/hcsr04", "drivers/l298n"];
    assert_eq!(did_you_mean("sensors/mpu650", &names), Some("sensors/mpu6050"));
    assert_eq!(did_you_mean("drivers/l298", &names), Some("drivers/l298n"));
}

#[test]
fn stays_quiet_when_nothing_is_close() {
    let names = ["sensors/mpu6050", "drivers/l298n"];
    assert_eq!(did_you_mean("slam/pose-graph", &names), None);
}

#[test]
fn distance_is_symmetric_on_examples() {
    assert_eq!(levenshtein("sitting", "kitten"), levenshtein("kitten", "sitting"));
    assert_eq!(levenshtein("flaw", "lawn"), 2);
    assert_eq!(levenshtein("lawn", "flaw"), 2);
}

#[test]
fn distance_counts_characters_not_bytes() {
    assert_eq!(levenshtein("°C", "C"), 1);
    assert_eq!(levenshtein("ω", "w"), 1);
}

#[test]
fn ties_go_to_the_earliest_candidate() {
    let names = ["ab", "ac"];
    assert_eq!(did_you_mean("aa", &names), Some("ab"));
}

#[test]
fn long_inputs_allow_a_third_of_their_length() {
    // 15 bytes: threshold 5.
    let names = ["abcdefghijklmno"];
    assert_eq!(did_you_mean("abcdefghijXXXXX", &names), Some("abcdefghijklmno"));
    assert_eq!(did_you_mean("abcdefghiXXXXXX", &names), None);
}
