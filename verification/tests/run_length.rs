use sokoban::run_length::{rle_decode, rle_decode_within, rle_encode};

#[test]
fn test_rle_encode() {
    assert_eq!(rle_encode(""), "");
    assert_eq!(rle_encode("aaabbbcdd"), "3a3bc2d");
}

#[test]
fn test_rle_decode() {
    assert_eq!(rle_decode(""), "");
    assert_eq!(rle_decode("-#$.*+@"), "-#$.*+@");
    assert_eq!(rle_decode("3-##3(.$2(+*))-#"), "---##.$+*+*.$+*+*.$+*+*-#");
}

#[test]
fn rle_encode_single_runs_stay_bare() {
    assert_eq!(rle_encode("#$.@"), "#$.@");
    assert_eq!(rle_encode("----------"), "10-");
}

#[test]
fn rle_decode_counts_and_groups() {
    assert_eq!(rle_decode("12#"), "############");
    assert_eq!(rle_decode("2(#-)"), "#-#-");
    assert_eq!(rle_decode("#3-#"), "#---#");
}

#[test]
fn rle_decode_undoes_encode() {
    for s in ["", "#", "####  $$..@", "--##$$$$.+*"] {
        assert_eq!(rle_decode(&rle_encode(s)), s);
    }
}

#[test]
fn closing_parentheses_survive_encoding() {
    let text = "a))b)";
    assert_eq!(rle_encode(text), "a2)b)");
    assert_eq!(rle_decode(&rle_encode(text)), text);
}

#[test]
fn bounded_decoding_stops() {
    assert_eq!(rle_decode_within("3-##3(.$2(+*))-#", 4), Some("---##.$+*+*.$+*+*.$+*+*-#".to_string()));
    assert_eq!(rle_decode_within("2(2(", 10), None);
}
