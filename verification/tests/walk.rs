use nsec_walk::name::DomainName;
use nsec_walk::walker::NsecWalker;
use nsec_walk::walker::Phase;
use nsec_walk::walker::Record;
use nsec_walk::walker::ResolutionFailure;
use nsec_walk::walker::WalkError;

fn name(text: &str) -> DomainName {
    DomainName::parse(text).expect("the test name should parse")
}

fn nsec_answer(next: &str) -> Result<Vec<Record>, ResolutionFailure> {
    Ok(vec![Record::Nsec { next_owner: name(next) }])
}

fn failure(message: &str) -> Result<Vec<Record>, ResolutionFailure> {
    Err(ResolutionFailure { message: message.to_string() })
}

#[test]
fn walk_three_name_chain() {
    let mut w = NsecWalker::new("a.example.com.").unwrap();
    assert_eq!(w.query_target().unwrap(), &name("a.example.com."));

    let first = w.advance(nsec_answer("b.example.com."));
    assert_eq!(first, Some(Ok(name("b.example.com."))));
    assert_eq!(w.query_target().unwrap(), &name("b.example.com."));

    let second = w.advance(nsec_answer("c.example.com."));
    assert_eq!(second, Some(Ok(name("c.example.com."))));

    // The chain wraps back to the start: the walk ends cleanly and the
    // start name is not re-emitted.
    let third = w.advance(nsec_answer("a.example.com."));
    assert_eq!(third, None);
    assert_eq!(w.phase(), Phase::Closed);
    assert!(w.query_target().is_none());

    // Nothing comes after the end.
    assert_eq!(w.advance(nsec_answer("d.example.com.")), None);
}

#[test]
fn immediate_closure_yields_empty_walk() {
    let mut w = NsecWalker::new("zone.example.").unwrap();
    let step = w.advance(nsec_answer("zone.example."));
    assert_eq!(step, None);
    assert_eq!(w.phase(), Phase::Closed);
}

#[test]
fn closure_comparison_is_case_insensitive() {
    let mut w = NsecWalker::new("a.example.com.").unwrap();
    let step = w.advance(nsec_answer("A.EXAMPLE.COM."));
    assert_eq!(step, None);
    assert_eq!(w.phase(), Phase::Closed);
}

#[test]
fn emitted_name_keeps_response_spelling() {
    let mut w = NsecWalker::new("a.example.com.").unwrap();
    let step = w.advance(nsec_answer("B.Example.Com."));
    assert_eq!(step, Some(Ok(name("B.Example.Com."))));
}

#[test]
fn failure_on_second_query_keeps_first_item() {
    let mut w = NsecWalker::new("a.example.com.").unwrap();

    let first = w.advance(nsec_answer("b.example.com."));
    assert_eq!(first, Some(Ok(name("b.example.com."))));

    let second = w.advance(failure("connection timed out"));
    assert_eq!(
        second,
        Some(Err(WalkError::Resolution { message: "connection timed out".to_string() }))
    );
    assert_eq!(w.phase(), Phase::Failed);

    // The sequence holds exactly one error item, then ends.
    assert_eq!(w.advance(nsec_answer("c.example.com.")), None);
    assert!(w.query_target().is_none());
}

#[test]
fn empty_answer_reports_no_nsec_record() {
    let mut w = NsecWalker::new("unsigned.example.").unwrap();
    let step = w.advance(Ok(vec![]));
    assert_eq!(step, Some(Err(WalkError::NoNsecRecord)));
    assert_eq!(w.phase(), Phase::Failed);
}

#[test]
fn non_nsec_record_reports_no_nsec_record() {
    let mut w = NsecWalker::new("unsigned.example.").unwrap();
    let step = w.advance(Ok(vec![Record::Other]));
    assert_eq!(step, Some(Err(WalkError::NoNsecRecord)));
    assert_eq!(w.phase(), Phase::Failed);
}

#[test]
fn only_the_first_record_counts() {
    // An NSEC record in front wins, whatever follows it.
    let mut w = NsecWalker::new("a.example.com.").unwrap();
    let answer = Ok(vec![Record::Nsec { next_owner: name("b.example.com.") }, Record::Other]);
    assert_eq!(w.advance(answer), Some(Ok(name("b.example.com."))));

    // A non-NSEC record in front fails the walk, even if an NSEC record
    // stands behind it.
    let mut v = NsecWalker::new("a.example.com.").unwrap();
    let answer = Ok(vec![Record::Other, Record::Nsec { next_owner: name("b.example.com.") }]);
    assert_eq!(v.advance(answer), Some(Err(WalkError::NoNsecRecord)));
}

#[test]
fn fresh_walker_behaves_identically_after_failure() {
    let mut first = NsecWalker::new("unsigned.example.").unwrap();
    let outcome_one = first.advance(Ok(vec![]));

    let mut second = NsecWalker::new("unsigned.example.").unwrap();
    assert_eq!(second.query_target().unwrap(), &name("unsigned.example."));
    let outcome_two = second.advance(Ok(vec![]));

    assert_eq!(outcome_one, outcome_two);
}

#[test]
fn malformed_start_name_fails_at_construction() {
    assert!(NsecWalker::new("").is_err());
    assert!(NsecWalker::new("a..b").is_err());
    let over = "a".repeat(64);
    assert!(NsecWalker::new(&format!("{over}.com")).is_err());
    let label = "a".repeat(63);
    assert!(NsecWalker::new(&format!("{label}.{label}.{label}.{label}")).is_err());
}

#[test]
fn walker_from_validated_name() {
    let start = name("a.example.com.");
    let mut w = NsecWalker::from_name(start);
    assert_eq!(w.phase(), Phase::Active);
    assert_eq!(w.advance(nsec_answer("a.example.com.")), None);
    assert_eq!(w.phase(), Phase::Closed);
}
