use harp::{generate_name, generate_name_with_options, version, NameOptions, WordSource};
use std::collections::HashSet;
use std::io::Write;

const ADJECTIVE_TEXT: &str = "quick\nbright\ncalm\nbold\nwarm\nfuzzy\nmellow\nshiny";
const NOUN_TEXT: &str = "fox\nriver\nstone\nlake\ncloud\nowl";

fn source() -> WordSource {
    WordSource::from_text(ADJECTIVE_TEXT, NOUN_TEXT)
}

fn adjectives() -> Vec<&'static str> {
    ADJECTIVE_TEXT.split('\n').collect()
}

fn nouns() -> Vec<&'static str> {
    NOUN_TEXT.split('\n').collect()
}

#[test]
fn test_generate_name_format() {
    let src = source();
    let name = generate_name(&src);
    let parts: Vec<&str> = name.split('-').collect();
    assert_eq!(parts.len(), 3, "name should have 3 parts: {name}");
}

#[test]
fn test_generate_name_uses_valid_words() {
    let src = source();
    let name = generate_name(&src);
    let parts: Vec<&str> = name.split('-').collect();

    assert!(
        adjectives().contains(&parts[0]),
        "first word should be adjective"
    );
    assert!(
        adjectives().contains(&parts[1]),
        "second word should be adjective"
    );
    assert!(nouns().contains(&parts[2]), "third word should be noun");
}

#[test]
fn test_generate_name_produces_different_results() {
    let src = source();
    let names: Vec<String> = (0..10).map(|_| generate_name(&src)).collect();
    let unique: HashSet<_> = names.iter().collect();
    assert!(unique.len() > 1, "should produce varied names");
}

#[test]
fn test_two_components() {
    let src = source();
    let opts = NameOptions {
        components: 2,
        ..Default::default()
    };
    let name = generate_name_with_options(&src, &opts);
    assert_eq!(name.matches('-').count(), 1);
}

#[test]
fn test_four_components() {
    let src = source();
    let opts = NameOptions {
        components: 4,
        ..Default::default()
    };
    let name = generate_name_with_options(&src, &opts);
    assert_eq!(name.matches('-').count(), 3);
}

#[test]
fn test_sixteen_components() {
    let src = source();
    let opts = NameOptions {
        components: 16,
        ..Default::default()
    };
    let name = generate_name_with_options(&src, &opts);
    assert_eq!(name.matches('-').count(), 15);
}

#[test]
fn test_components_clamped_to_max() {
    let src = source();
    let opts = NameOptions {
        components: 20,
        ..Default::default()
    };
    let name = generate_name_with_options(&src, &opts);
    assert_eq!(name.matches('-').count(), 15); // clamped to 16
}

#[test]
fn test_max_element_length() {
    let src = source();
    let opts = NameOptions {
        max_element_length: Some(4),
        ..Default::default()
    };
    let name = generate_name_with_options(&src, &opts);
    for part in name.split('-') {
        assert!(part.len() <= 4, "part too long: {part}");
    }
}

#[test]
fn test_custom_separator() {
    let src = source();
    let opts = NameOptions {
        separator: "_".to_string(),
        ..Default::default()
    };
    let name = generate_name_with_options(&src, &opts);
    assert!(name.contains('_'));
    assert!(!name.contains('-'));
}

#[test]
fn test_components_clamped_to_min() {
    let src = source();
    for low in [0u8, 1u8] {
        let opts = NameOptions {
            components: low,
            ..Default::default()
        };
        let name = generate_name_with_options(&src, &opts);
        assert_eq!(name.matches('-').count(), 1); // clamped to 2
    }
    for high in [17u8, 255u8] {
        let opts = NameOptions {
            components: high,
            ..Default::default()
        };
        let name = generate_name_with_options(&src, &opts);
        assert_eq!(name.matches('-').count(), 15); // clamped to 16
    }
}

#[test]
fn test_options_scenario() {
    let src = source();
    let opts = NameOptions {
        components: 2,
        max_element_length: Some(5),
        separator: "_".to_string(),
    };
    let name = generate_name_with_options(&src, &opts);
    let parts: Vec<&str> = name.split('_').collect();
    assert_eq!(parts.len(), 2);
    assert!(parts[0].len() <= 5);
    assert!(parts[1].len() <= 5);
    assert!(adjectives().contains(&parts[0]));
    assert!(nouns().contains(&parts[1]));
}

#[test]
fn test_multichar_separator() {
    let src = source();
    let opts = NameOptions {
        components: 4,
        separator: "::".to_string(),
        ..NameOptions::default()
    };
    let name = generate_name_with_options(&src, &opts);
    assert_eq!(name.matches('-').count(), 0);
    assert_eq!(name.matches("::").count(), 3);
}

#[test]
fn test_empty_pools_give_empty_name() {
    let src = source();
    let opts = NameOptions {
        max_element_length: Some(1), // shorter than every word in both lists
        ..NameOptions::default()
    };
    let name = generate_name_with_options(&src, &opts);
    assert_eq!(name, "");
}

#[test]
fn test_empty_noun_pool_skips_the_noun() {
    // every adjective fits in 4 characters, no noun does
    let src = WordSource::from_text("bold\ncalm", "mountain\nglacier");
    let opts = NameOptions {
        components: 3,
        max_element_length: Some(4),
        ..NameOptions::default()
    };
    let name = generate_name_with_options(&src, &opts);
    let parts: Vec<&str> = name.split('-').collect();
    assert_eq!(parts.len(), 2);
    assert!(parts.iter().all(|p| *p == "bold" || *p == "calm"));
}

#[test]
fn test_single_word_lists() {
    let src = WordSource::from_text("apple", "berry");
    let name = generate_name(&src);
    assert_eq!(name, "apple-apple-berry");
}

#[test]
fn test_from_text_drops_empty_lines() {
    let src = WordSource::from_text("\nalpha\n\nbeta\n", "gamma\n");
    assert_eq!(src.adjectives(), &vec!["alpha".to_string(), "beta".to_string()]);
    assert_eq!(src.nouns(), &vec!["gamma".to_string()]);
}

fn gzip(text: &str) -> Vec<u8> {
    let mut encoder =
        flate2::write::GzEncoder::new(Vec::new(), flate2::Compression::default());
    encoder.write_all(text.as_bytes()).unwrap();
    encoder.finish().unwrap()
}

#[test]
fn test_from_compressed_round_trip() {
    let adj_gz = gzip("alpha\nbeta\n");
    let noun_gz = gzip("gamma\n");
    let src = WordSource::from_compressed(&adj_gz, &noun_gz).unwrap();
    assert_eq!(src.adjectives(), &vec!["alpha".to_string(), "beta".to_string()]);
    assert_eq!(src.nouns(), &vec!["gamma".to_string()]);
}

#[test]
fn test_from_compressed_rejects_corrupt_payload() {
    let good = gzip("alpha\n");
    let corrupt = vec![0u8, 1, 2, 3, 4];
    let result = WordSource::from_compressed(&corrupt, &good);
    assert!(matches!(result, Err(harp::Error::InvalidInput(_))));
    let result = WordSource::from_compressed(&good, &corrupt);
    assert!(matches!(result, Err(harp::Error::InvalidInput(_))));
}

#[test]
fn test_version() {
    assert_eq!(version(), "0.1.0");
}
