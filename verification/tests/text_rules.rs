use exs::debug_to_kw;
use exs::text::join_bytes;
use exs::text::remove_commas;
use exs::text::replace_colon_space;
use exs::text::split_bytes;
use exs::text::trim_bytes;

fn bytes(s: &str) -> Vec<u8> {
    s.as_bytes().to_vec()
}

#[test]
fn trim_strips_both_ends() {
    assert_eq!(trim_bytes(&bytes("  a b \t")), bytes("a b"));
    assert_eq!(trim_bytes(&bytes("")), bytes(""));
    assert_eq!(trim_bytes(&bytes("   ")), bytes(""));
    assert_eq!(trim_bytes(&bytes("x")), bytes("x"));
}

#[test]
fn split_on_newlines() {
    let parts = split_bytes(&bytes("a\nbc\n\nd"), b'\n');
    assert_eq!(parts, vec![bytes("a"), bytes("bc"), bytes(""), bytes("d")]);
    assert_eq!(split_bytes(&bytes("abc"), b'\n'), vec![bytes("abc")]);
}

#[test]
fn join_with_semicolons() {
    let parts = vec![bytes("a"), bytes("bc"), bytes("d")];
    assert_eq!(join_bytes(&parts, b';'), bytes("a;bc;d"));
    assert_eq!(join_bytes(&vec![], b';'), bytes(""));
}

#[test]
fn replace_and_remove() {
    assert_eq!(replace_colon_space(&bytes("a: 1, b: 2")), bytes("a=1, b=2"));
    assert_eq!(remove_commas(&bytes("a,b,,c")), bytes("abc"));
}

#[test]
fn debug_to_kw_header_line() {
    let rendered = bytes("PParams {\n    i_max: 5000,\n    tabu_memory: 50,\n}");
    assert_eq!(debug_to_kw(&rendered), bytes("i_max=5000;tabu_memory=50"));
}

#[test]
fn debug_to_kw_single_field() {
    let rendered = bytes("Params {\n    alpha: 3,\n}");
    assert_eq!(debug_to_kw(&rendered), bytes("alpha=3"));
}
