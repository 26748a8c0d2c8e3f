use nsec_walk::name::DomainName;

fn name(text: &str) -> DomainName {
    DomainName::parse(text).expect("the test name should parse")
}

#[test]
fn parse_simple_name() {
    let n = name("www.example.com.");
    let labels = n.labels();
    assert_eq!(labels.len(), 3);
    assert_eq!(labels[0], b"www".to_vec());
    assert_eq!(labels[1], b"example".to_vec());
    assert_eq!(labels[2], b"com".to_vec());
    assert_eq!(n.label_count(), 3);
}

#[test]
fn parse_without_trailing_dot() {
    let n = name("example.com");
    assert_eq!(n.labels().len(), 2);
    assert_eq!(n, name("example.com."));
}

#[test]
fn parse_root() {
    let n = name(".");
    assert_eq!(n.label_count(), 0);
}

#[test]
fn parse_empty_fails() {
    assert!(DomainName::parse("").is_err());
}

#[test]
fn parse_empty_label_fails() {
    assert!(DomainName::parse("a..b").is_err());
    assert!(DomainName::parse(".a").is_err());
    assert!(DomainName::parse("a..").is_err());
    assert!(DomainName::parse("..").is_err());
}

#[test]
fn parse_label_length_limit() {
    let max = "a".repeat(63);
    assert!(DomainName::parse(&format!("{max}.com")).is_ok());
    let over = "a".repeat(64);
    assert!(DomainName::parse(&format!("{over}.com")).is_err());
}

#[test]
fn parse_name_length_limit() {
    let label = "a".repeat(63);
    // Four 63-byte labels encode to 4 * 64 + 1 = 257 bytes: too long.
    let too_long = format!("{label}.{label}.{label}.{label}");
    assert!(DomainName::parse(&too_long).is_err());
    // Three 63-byte labels and one 60-byte label encode to 254 bytes.
    let shorter = "a".repeat(60);
    let fits = format!("{label}.{label}.{label}.{shorter}");
    assert!(DomainName::parse(&fits).is_ok());
}

#[test]
fn parse_rejects_invisible_and_non_ascii_bytes() {
    assert!(DomainName::parse("a b.com").is_err());
    assert!(DomainName::parse("h\u{e9}llo.com").is_err());
    assert!(DomainName::parse("a\tb").is_err());
}

#[test]
fn from_labels_roundtrip() {
    let n = DomainName::from_labels(vec![b"Www".to_vec(), b"Example".to_vec(), b"ORG".to_vec()])
        .expect("labels within limits should be accepted");
    assert_eq!(n.labels()[0], b"Www".to_vec());
    assert_eq!(n.labels()[2], b"ORG".to_vec());
}

#[test]
fn from_labels_accepts_arbitrary_bytes() {
    let n = DomainName::from_labels(vec![vec![0xff, 0x00], b"example".to_vec()])
        .expect("wire labels may hold any bytes");
    assert_eq!(n.labels()[0], vec![0xff, 0x00]);
}

#[test]
fn from_labels_rejects_bad_shapes() {
    assert!(DomainName::from_labels(vec![b"a".to_vec(), vec![]]).is_err());
    assert!(DomainName::from_labels(vec![vec![0x61; 64]]).is_err());
    assert!(DomainName::from_labels(vec![vec![0x61; 63]; 4]).is_err());
}

#[test]
fn canon_eq_ignores_ascii_case() {
    let lower = name("a.example.com.");
    let mixed = name("A.ExAmPlE.CoM.");
    assert!(lower.canon_eq(&mixed));
    assert!(mixed.canon_eq(&lower));
    // The raw spellings still differ.
    assert_ne!(lower, mixed);
}

#[test]
fn canon_eq_distinguishes_names() {
    let a = name("a.example.com.");
    let b = name("b.example.com.");
    assert!(!a.canon_eq(&b));
    let shorter = name("example.com.");
    assert!(!a.canon_eq(&shorter));
}

#[test]
fn clone_preserves_labels() {
    let n = name("Mail.Example.Com");
    let c = n.clone();
    assert_eq!(n, c);
}
