use js_source_mapper::base64;
use js_source_mapper::base64_vlq;
use quickcheck::quickcheck;

#[test]
fn base64_it_encodes_some_numbers() {
    assert!(base64::encode(0) == Some('A' as u8));
    assert!(base64::encode(22) == Some('W' as u8));
    assert!(base64::encode(42) == Some('q' as u8));
    assert!(base64::encode(55) == Some('3' as u8));
    assert!(base64::encode(63) == Some('/' as u8));
    assert!(base64::encode(-1) == None);
    assert!(base64::encode(65) == None);
}

#[test]
fn it_decodes_some_codepoints() {
    assert!(base64::decode('A' as u8) == Some(0));
    assert!(base64::decode('W' as u8) == Some(22));
    assert!(base64::decode('q' as u8) == Some(42));
    assert!(base64::decode('3' as u8) == Some(55));
    assert!(base64::decode('/' as u8) == Some(63));
    assert!(base64::decode('+' as u8) == Some(62));
    assert!(base64::decode('.' as u8) == None);
    assert!(base64::decode(0xF6) == None);
}

#[test]
fn it_encodes_and_decodes_some_numbers() {
    for x in 0..64 {
        assert!(base64::encode(x).and_then(base64::decode) == Some(x));
    }
    for &x in b"ABCDEFGHIJKLMNOPQRSTUVWXYZabcdefghijklmnopqrstuvwxyz0123456789+/" {
        assert!(base64::decode(x).and_then(base64::encode) == Some(x));
    }
}

#[test]
fn it_defines_sane_constants() {
    assert!(base64_vlq::VLQ_BASE == 0b100000);
    assert!(base64_vlq::VLQ_BASE_MASK == 0b011111);
    assert!(base64_vlq::VLQ_CONTINUATION_BIT == 0b100000);
}

#[test]
fn it_converts_to_vql() {
    assert!(base64_vlq::to_vql(1) == 2);
    assert!(base64_vlq::to_vql(-1) == 3);
    assert!(base64_vlq::to_vql(2) == 4);
    assert!(base64_vlq::to_vql(-2) == 5);
}

#[test]
fn it_converts_from_vql() {
    assert!(base64_vlq::from_vql(2) == 1);
    assert!(base64_vlq::from_vql(3) == -1);
    assert!(base64_vlq::from_vql(4) == 2);
    assert!(base64_vlq::from_vql(5) == -2);
}

#[test]
fn base64_vlq_it_encodes_some_numbers() {
    assert!(base64_vlq::encode(-1000000) == Some("hkh9B".into()));
    assert!(base64_vlq::encode(-124133) == Some("ruyH".into()));
    assert!(base64_vlq::encode(-12332) == Some("5iY".into()));
    assert!(base64_vlq::encode(-2222) == Some("9qE".into()));
    assert!(base64_vlq::encode(-1579) == Some("3iD".into()));
    assert!(base64_vlq::encode(-65) == Some("jE".into()));
    assert!(base64_vlq::encode(-25) == Some("zB".into()));
    assert!(base64_vlq::encode(-20) == Some("pB".into()));
    assert!(base64_vlq::encode(-11) == Some("X".into()));
    assert!(base64_vlq::encode(-9) == Some("T".into()));
    assert!(base64_vlq::encode(-2) == Some("F".into()));
    assert!(base64_vlq::encode(-1) == Some("D".into()));
    assert!(base64_vlq::encode(0) == Some("A".into()));
    assert!(base64_vlq::encode(1) == Some("C".into()));
    assert!(base64_vlq::encode(7) == Some("O".into()));
    assert!(base64_vlq::encode(15) == Some("e".into()));
    assert!(base64_vlq::encode(23) == Some("uB".into()));
    assert!(base64_vlq::encode(88) == Some("wF".into()));
    assert!(base64_vlq::encode(1254) == Some("suC".into()));
    assert!(base64_vlq::encode(2493) == Some("67E".into()));
    assert!(base64_vlq::encode(23903) == Some("+1uB".into()));
    assert!(base64_vlq::encode(129383) == Some("u28H".into()));
    assert!(base64_vlq::encode(298322) == Some("k1mS".into()));
    assert!(base64_vlq::encode(1000000) == Some("gkh9B".into()));
}

#[test]
fn it_decodes_some_numbers() {
    assert!(base64_vlq::decode(b"hkh9B").unwrap().0 == -1000000);
    assert!(base64_vlq::decode(b"ruyH").unwrap().0 == -124133);
    assert!(base64_vlq::decode(b"5iY").unwrap().0 == -12332);
    assert!(base64_vlq::decode(b"9qE").unwrap().0 == -2222);
    assert!(base64_vlq::decode(b"3iD").unwrap().0 == -1579);
    assert!(base64_vlq::decode(b"jE").unwrap().0 == -65);
    assert!(base64_vlq::decode(b"zB").unwrap().0 == -25);
    assert!(base64_vlq::decode(b"pB").unwrap().0 == -20);
    assert!(base64_vlq::decode(b"X").unwrap().0 == -11);
    assert!(base64_vlq::decode(b"T").unwrap().0 == -9);
    assert!(base64_vlq::decode(b"F").unwrap().0 == -2);
    assert!(base64_vlq::decode(b"D").unwrap().0 == -1);
    assert!(base64_vlq::decode(b"A").unwrap().0 == 0);
    assert!(base64_vlq::decode(b"C").unwrap().0 == 1);
    assert!(base64_vlq::decode(b"O").unwrap().0 == 7);
    assert!(base64_vlq::decode(b"e").unwrap().0 == 15);
    assert!(base64_vlq::decode(b"uB").unwrap().0 == 23);
    assert!(base64_vlq::decode(b"wF").unwrap().0 == 88);
    assert!(base64_vlq::decode(b"suC").unwrap().0 == 1254);
    assert!(base64_vlq::decode(b"67E").unwrap().0 == 2493);
    assert!(base64_vlq::decode(b"+1uB").unwrap().0 == 23903);
    assert!(base64_vlq::decode(b"u28H").unwrap().0 == 129383);
    assert!(base64_vlq::decode(b"k1mS").unwrap().0 == 298322);
    assert!(base64_vlq::decode(b"gkh9B").unwrap().0 == 1000000);
}

#[test]
fn it_returns_sane_field_length() {
    {
        let result = base64_vlq::decode(b"ABCDE").unwrap();
        assert!(result.0 == 0);
        assert!(result.1 == 1);
    }
    {
        let result = base64_vlq::decode(&b"ABCDE"[1..5]).unwrap();
        assert!(result.0 == 0);
        assert!(result.1 == 1);
    }
    {
        let result = base64_vlq::decode(&b"ABCDE"[2..5]).unwrap();
        assert!(result.0 == 1);
        assert!(result.1 == 1);
    }
    {
        let result = base64_vlq::decode(&b"ABCDE"[3..5]).unwrap();
        assert!(result.0 == -1);
        assert!(result.1 == 1);
    }
    {
        let result = base64_vlq::decode(&b"ABCDE"[4..5]).unwrap();
        assert!(result.0 == 2);
        assert!(result.1 == 1);
    }
}

#[test]
fn quickcheck_base64_vlq_converts_to_vql_and_back() {
    fn prop(x: i32) -> bool {
        base64_vlq::from_vql(base64_vlq::to_vql(x)) == x
    }
    quickcheck(prop as fn(i32) -> bool);
}

#[test]
fn quickcheck_base64_vlq_encodes_and_decodes_some_numbers() {
    fn prop(x: i32) -> bool {
        base64_vlq::encode(x).and_then(|x| base64_vlq::decode(&x)).unwrap().0 == x
    }
    quickcheck(prop as fn(i32) -> bool);
}

#[test]
fn it_rejects_truncated_values() {
    // a digit with the continuation bit set, then nothing
    assert!(base64_vlq::decode(b"g") == None);
    // a digit outside the alphabet
    assert!(base64_vlq::decode(b"!") == None);
    // the empty input holds no value at all
    assert!(base64_vlq::decode(b"") == None);
    // an invalid character after the value's end is never reached
    assert!(base64_vlq::decode(b"A!").unwrap() == (0, 1));
}
