//! The list of flags.

use chd2iso_fuse::flags::flag_lines;

#[test]
fn flags_are_listed_in_order_without_repeats() {
    let names: Vec<String> =
        ["source", "mount", "vcd", "mount", "allow-other", "vcd", "Zed"].map(String::from).to_vec();
    let mut want: Vec<String> = names.iter().map(|n| format!("--{n}")).collect();
    want.sort();
    want.dedup();
    assert_eq!(flag_lines(&names), want);
    assert_eq!(
        flag_lines(&names),
        ["--Zed", "--allow-other", "--mount", "--source", "--vcd"]
    );
    assert_eq!(flag_lines(&[]), Vec::<String>::new());
}
