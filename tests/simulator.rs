use sim::{
    check_cache, convert_to_binary_from_hex, preprocess_line, process_line, simulate, validate_config, Cache,
    ConfigError, LineError,
};

fn lines(text: &[&str]) -> Vec<String> {
    text.iter().map(|l| l.to_string()).collect()
}

fn access(cache: &mut Cache, counts: &mut (i32, i32, i32), tag: &str, set_index: &str, e: i32) {
    check_cache(
        cache,
        &mut counts.0,
        &mut counts.1,
        &mut counts.2,
        &tag.to_string(),
        &set_index.to_string(),
        &e,
    );
}

#[test]
fn every_hex_digit_gives_four_bits() {
    let digits = "0123456789abcdefABCDEF";
    for c in digits.chars() {
        let bin = convert_to_binary_from_hex(&c.to_string());
        assert_eq!(bin.len(), 4);
        let value = u32::from_str_radix(&bin, 2).unwrap();
        assert_eq!(value, c.to_digit(16).unwrap());
    }
}

#[test]
fn lower_and_upper_case_digits_agree() {
    assert_eq!(convert_to_binary_from_hex("af"), "10101111");
    assert_eq!(convert_to_binary_from_hex("AF"), "10101111");
}

#[test]
fn conversion_keeps_digit_order() {
    let a = convert_to_binary_from_hex("1ABC");
    let b = convert_to_binary_from_hex("78");
    assert_eq!(format!("{}{}", a, b), convert_to_binary_from_hex("1ABC78"));
    assert_eq!(convert_to_binary_from_hex("1ABC78"), "000110101011110001111000");
}

#[test]
fn empty_and_non_hex_input() {
    assert_eq!(convert_to_binary_from_hex(""), "");
    assert_eq!(convert_to_binary_from_hex("g1"), "0001");
}

#[test]
fn decode_partitions_address() {
    let (code, tag, set_index) = preprocess_line(&String::from(" M 1ABC78,4"), &5, &3).unwrap();
    let bits = convert_to_binary_from_hex("1ABC78");
    assert_eq!(code, "M");
    assert_eq!(tag.len() + set_index.len() + 3, bits.len());
    assert_eq!(format!("{}{}", tag, set_index), bits[..bits.len() - 3]);
    assert_eq!(tag, "0001101010111100");
    assert_eq!(set_index, "01111");
}

#[test]
fn decode_example_with_eight_and_eight() {
    let (code, tag, set_index) = preprocess_line(&String::from(" L AF883BC78,8"), &8, &8).unwrap();
    assert_eq!(code, "L");
    assert_eq!(tag, "10101111100010000011");
    assert_eq!(set_index, "10111100");
}

#[test]
fn instruction_fetch_is_skipped() {
    let r = preprocess_line(&String::from("I 0400d7d4,8"), &4, &4).unwrap();
    assert_eq!(r, (String::new(), String::new(), String::new()));
}

#[test]
fn malformed_lines_are_rejected() {
    for line in [" X 10,4", "L 10,4", " L 10", " L ,4", " L 1G,4", " L 10,", "", " L 10,4 "] {
        assert_eq!(preprocess_line(&line.to_string(), &1, &1), Err(LineError::MalformedLine));
    }
}

#[test]
fn offset_as_long_as_address_is_rejected() {
    let r = preprocess_line(&String::from(" L AB,1"), &1, &8);
    assert_eq!(r, Err(LineError::AddressTooShort { s: 1, b: 8, address_bits: 8 }));
}

#[test]
fn offset_and_set_longer_than_address_is_rejected() {
    let r = preprocess_line(&String::from(" S AB,1"), &4, &5);
    assert_eq!(r, Err(LineError::AddressTooShort { s: 4, b: 5, address_bits: 8 }));
    let ok = preprocess_line(&String::from(" S AB,1"), &4, &4).unwrap();
    assert_eq!(ok, (String::from("S"), String::new(), String::from("1010")));
}

#[test]
fn fresh_set_misses_then_hits() {
    let mut cache = Cache::new();
    let mut counts = (0, 0, 0);
    access(&mut cache, &mut counts, "01", "1", 2);
    assert_eq!(counts, (0, 1, 0));
    access(&mut cache, &mut counts, "01", "1", 2);
    assert_eq!(counts, (1, 1, 0));
    assert_eq!(cache.get(&"1".to_string()).unwrap().len(), 1);
}

#[test]
fn full_set_evicts_least_recently_used() {
    let mut cache = Cache::new();
    let mut counts = (0, 0, 0);
    for tag in ["a", "b", "c"] {
        access(&mut cache, &mut counts, tag, "0", 3);
    }
    assert_eq!(counts, (0, 3, 0));
    access(&mut cache, &mut counts, "d", "0", 3);
    assert_eq!(counts, (0, 4, 1));
    assert_eq!(cache.get(&"0".to_string()).unwrap(), &lines(&["d", "c", "b"]));
}

#[test]
fn hit_refreshes_recency_before_eviction() {
    let mut cache = Cache::new();
    let mut counts = (0, 0, 0);
    access(&mut cache, &mut counts, "a", "0", 2);
    access(&mut cache, &mut counts, "b", "0", 2);
    access(&mut cache, &mut counts, "a", "0", 2);
    access(&mut cache, &mut counts, "c", "0", 2);
    assert_eq!(counts, (1, 3, 1));
    assert_eq!(cache.get(&"0".to_string()).unwrap(), &lines(&["c", "a"]));
}

#[test]
fn sets_are_independent() {
    let mut cache = Cache::new();
    let mut counts = (0, 0, 0);
    access(&mut cache, &mut counts, "a", "0", 1);
    access(&mut cache, &mut counts, "a", "1", 1);
    access(&mut cache, &mut counts, "a", "0", 1);
    assert_eq!(counts, (1, 2, 0));
    assert!(!cache.contains_key(&"2".to_string()));
    assert!(cache.get(&"2".to_string()).is_none());
}

#[test]
fn modify_line_accesses_twice() {
    let mut cache = Cache::new();
    let (mut hits, mut misses, mut evictions) = (0, 0, 0);
    let code = String::from("M");
    let tag = String::from("1");
    let set_index = String::from("0");
    process_line(&mut cache, &mut hits, &mut misses, &mut evictions, &code, &tag, &set_index, &1);
    assert_eq!((hits, misses, evictions), (1, 1, 0));
    let other = String::from("0");
    process_line(&mut cache, &mut hits, &mut misses, &mut evictions, &code, &other, &set_index, &1);
    assert_eq!((hits, misses, evictions), (2, 2, 1));
}

#[test]
fn load_store_and_skip_lines() {
    let mut cache = Cache::new();
    let (mut hits, mut misses, mut evictions) = (0, 0, 0);
    let tag = String::from("1");
    let set_index = String::from("0");
    process_line(&mut cache, &mut hits, &mut misses, &mut evictions, &String::from("L"), &tag, &set_index, &1);
    process_line(&mut cache, &mut hits, &mut misses, &mut evictions, &String::from("S"), &tag, &set_index, &1);
    process_line(&mut cache, &mut hits, &mut misses, &mut evictions, &String::new(), &tag, &set_index, &1);
    assert_eq!((hits, misses, evictions), (1, 1, 0));
}

#[test]
fn simulate_small_trace() {
    let trace = lines(&[
        "I 0400d7d4,8",
        " L 10,1",
        " M 20,1",
        " L 22,1",
        " S 18,1",
        " L 110,1",
        " L 210,1",
        " M 12,1",
    ]);
    assert_eq!(simulate(&trace, 4, 4, 1), Ok((4, 5, 3)));
}

#[test]
fn simulate_twice_gives_same_counts() {
    let trace = lines(&[" L 10,1", " M 20,1", " L 10,1", " S 30,4", " L 20,1"]);
    let first = simulate(&trace, 1, 4, 2);
    let second = simulate(&trace, 1, 4, 2);
    assert_eq!(first, second);
    assert!(first.is_ok());
}

#[test]
fn simulate_stops_at_first_bad_line() {
    let trace = lines(&[" L 10,1", "garbage", " L 1,1"]);
    assert_eq!(simulate(&trace, 1, 4, 1), Err(LineError::MalformedLine));
    let short = lines(&[" L 10,1", " L 1,1"]);
    assert_eq!(
        simulate(&short, 1, 4, 1),
        Err(LineError::AddressTooShort { s: 1, b: 4, address_bits: 4 })
    );
}

#[test]
fn configuration_checks() {
    assert_eq!(validate_config(1, 1, 1), Ok(()));
    assert_eq!(validate_config(1, 0, 1), Err(ConfigError::InvalidB));
    assert_eq!(validate_config(0, 1, 1), Err(ConfigError::InvalidS));
    assert_eq!(validate_config(1, 1, 0), Err(ConfigError::InvalidE));
    assert_eq!(validate_config(0, 0, 0), Err(ConfigError::InvalidB));
}
