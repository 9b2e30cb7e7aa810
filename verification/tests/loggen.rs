use instagrep::loggen::{check_template, fmt, log_line, pick, rand};

fn filled(template: &str) -> (String, u64) {
    let mut seed = 42;
    let mut buf = Vec::new();
    fmt(&mut seed, &mut buf, template.as_bytes());
    (String::from_utf8(buf).unwrap(), seed)
}

#[test]
fn numbers_follow_from_the_seed() {
    let mut seed = 42;
    assert_eq!(rand(&mut seed), 1220265334);
    assert_eq!(seed, 10481999410520546993);
    let mut seed = 42;
    assert_eq!(pick(&mut seed, 10), 4);
}

#[test]
fn placeholders_are_filled_in() {
    assert_eq!(filled("{ip}"), ("1220265334.484179026.886563538.1353769503".to_string(), 11628791489956661374));
    assert_eq!(filled("{email}"), ("user1220265334@corp.net".to_string(), 4159066171780167020));
    assert_eq!(filled("{key}"), ("0cc90630".to_string(), 2812299150962093586));
    assert_eq!(filled("{n}ms"), ("7373ms".to_string(), 10481999410520546993));
    assert_eq!(filled("{module}"), ("queue".to_string(), 10481999410520546993));
    assert_eq!(filled("a{zzz}b"), ("ab".to_string(), 42));
}

#[test]
fn a_line_is_drawn_from_the_seed() {
    let actions = vec![b"Cache miss for key {key}".to_vec(), b"Job {key} completed in {n}ms".to_vec()];
    let mut seed = 42;
    let mut buf = Vec::new();
    log_line(&mut seed, &mut buf, &actions);
    assert_eq!(String::from_utf8(buf).unwrap(), "2024-01-15 10:30:45 TRACE [web] Cache miss for key 90630872\n");
}

#[test]
fn a_template_has_to_be_closed() {
    assert!(check_template(b"a {b} c"));
    assert!(check_template(b"}"));
    assert!(!check_template(b"a {b} {c"));
}
