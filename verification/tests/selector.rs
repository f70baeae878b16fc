use kube_resources::{chars_of, is_space, ConfigError, Filter};

#[test]
fn selectors_by_name() {
    assert_eq!(Filter::from_str("cpu"), Ok(Filter::Cpu));
    assert_eq!(Filter::from_str("mem"), Ok(Filter::Mem));
    assert_eq!(Filter::from_str("storage"), Ok(Filter::Storage));
    assert_eq!(Filter::from_str("pods"), Ok(Filter::Pods));
    assert_eq!(Filter::from_str(""), Ok(Filter::Unsorted));
}

#[test]
fn white_space_around_a_selector_does_not_count() {
    assert_eq!(Filter::from_str("  cpu"), Ok(Filter::Cpu));
    assert_eq!(Filter::from_str("mem\n"), Ok(Filter::Mem));
    assert_eq!(Filter::from_str("\t storage \r\n"), Ok(Filter::Storage));
    assert_eq!(Filter::from_str("\u{a0}pods\u{3000}"), Ok(Filter::Pods));
    assert_eq!(Filter::from_str("   "), Ok(Filter::Unsorted));
    assert_eq!(Filter::from_str("\u{2003}"), Ok(Filter::Unsorted));
}

#[test]
fn other_texts_are_no_selectors() {
    for text in ["gpu", "CPU", "c pu", "cpus", "pod", "none", "cpu,mem", "\u{200b}cpu"] {
        assert_eq!(
            Filter::from_str(text),
            Err(ConfigError {
                message: format!("invalid filter {}", text),
            })
        );
    }
}

#[test]
fn message_repeats_the_text_as_it_was_given() {
    assert_eq!(
        Filter::from_str("  disk  ").unwrap_err().message,
        "invalid filter   disk  "
    );
}

#[test]
fn white_space_is_what_the_language_calls_so() {
    for code in 0u32..0x3100 {
        if let Some(c) = char::from_u32(code) {
            assert_eq!(is_space(c), c.is_whitespace(), "U+{:04X}", code);
        }
    }
    assert!(!is_space('\u{feff}'));
    assert!(!is_space('\u{10ffff}'));
}

#[test]
fn characters_of_a_text() {
    assert_eq!(chars_of(""), Vec::<char>::new());
    assert_eq!(chars_of("1Gi"), vec!['1', 'G', 'i']);
    assert_eq!(chars_of("ü１"), vec!['ü', '１']);
}
