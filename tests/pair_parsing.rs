use mandelbrot::pair::parse_pair;

#[test]
fn test_parse_pair() {
    assert_eq!(parse_pair::<i32>("-10x10", 'x'), Some((-10, 10)));
    assert_eq!(parse_pair::<i32>("800,600f", ','), None);
    assert_eq!(parse_pair::<i32>("1920/1080", '/'), Some((1920, 1080)));
    assert_eq!(parse_pair::<i32>("10.6*-34", '*'), None);
    assert_eq!(
        parse_pair::<String>("abc*jhu", '*'),
        Some(("abc".to_string(), "jhu".to_string()))
    )
}

#[test]
fn pair_without_separator_fails() {
    assert_eq!(parse_pair::<i32>("1920", 'x'), None);
    assert_eq!(parse_pair::<String>("", 'x'), None);
}

#[test]
fn pair_splits_at_first_separator() {
    assert_eq!(
        parse_pair::<String>("a,b,c", ','),
        Some(("a".to_string(), "b,c".to_string()))
    );
    assert_eq!(parse_pair::<i32>("1,2,3", ','), None);
}

#[test]
fn pair_with_empty_side_fails_for_integers() {
    assert_eq!(parse_pair::<i32>("x10", 'x'), None);
    assert_eq!(parse_pair::<i32>("10x", 'x'), None);
    assert_eq!(
        parse_pair::<String>("x", 'x'),
        Some((String::new(), String::new()))
    );
}

#[test]
fn pair_signs() {
    assert_eq!(parse_pair::<i32>("+7x-0", 'x'), Some((7, 0)));
    assert_eq!(parse_pair::<i32>("-x1", 'x'), None);
    assert_eq!(parse_pair::<usize>("+7x8", 'x'), Some((7, 8)));
    assert_eq!(parse_pair::<usize>("-7x8", 'x'), None);
    assert_eq!(parse_pair::<usize>("-0x8", 'x'), None);
}

#[test]
fn pair_of_bounds() {
    assert_eq!(parse_pair::<usize>("1920x1080", 'x'), Some((1920, 1080)));
    assert_eq!(parse_pair::<usize>(" 1920x1080", 'x'), None);
}

#[test]
fn pair_out_of_range_fails() {
    assert_eq!(parse_pair::<i32>("2147483647,-2147483648", ','), Some((i32::MAX, i32::MIN)));
    assert_eq!(parse_pair::<i32>("2147483648,0", ','), None);
}

#[test]
fn pair_with_multibyte_separator() {
    assert_eq!(parse_pair::<i32>("3×4", '×'), Some((3, 4)));
    assert_eq!(
        parse_pair::<String>("é×ü", '×'),
        Some(("é".to_string(), "ü".to_string()))
    );
}
