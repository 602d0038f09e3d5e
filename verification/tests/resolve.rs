use ticket::resolve::{resolve_uuid_prefix, PrefixError};

const A: u128 = 0x1234_5678_9abc_def0_1111_2222_3333_4444;
const B: u128 = 0x1234_5678_0000_0000_0000_0000_0000_0001;
const C: u128 = 0xabcd_ef01_0000_0000_0000_0000_0000_0002;

#[test]
fn full_uuid_resolves_without_lookup() {
    let r = resolve_uuid_prefix("12345678-9abc-def0-1111-222233334444", &[]);
    assert!(matches!(r, Ok(id) if id == A));
}

#[test]
fn unique_prefix_resolves_case_insensitively_after_trimming() {
    let ids = [A, B, C];
    assert!(matches!(resolve_uuid_prefix("abcdef01", &ids), Ok(id) if id == C));
    assert!(matches!(resolve_uuid_prefix("  ABCDEF01 ", &ids), Ok(id) if id == C));
    assert!(matches!(resolve_uuid_prefix("123456789abc", &ids), Ok(id) if id == A));
}

#[test]
fn prefix_matching_several_tickets_is_ambiguous() {
    let ids = [A, B, C];
    match resolve_uuid_prefix("12345678", &ids) {
        Err(PrefixError::Ambiguous(p, n)) => {
            assert_eq!(p, "12345678");
            assert_eq!(n, 2);
        },
        _ => panic!("expected an ambiguous prefix"),
    }
}

#[test]
fn prefix_matching_nothing_is_not_found() {
    match resolve_uuid_prefix(" deadbeef", &[A, B, C]) {
        Err(PrefixError::NotFound(p)) => assert_eq!(p, "deadbeef"),
        _ => panic!("expected no match"),
    }
}

#[test]
fn short_or_non_hex_references_are_invalid() {
    assert!(matches!(resolve_uuid_prefix("1234567", &[A]), Err(PrefixError::Invalid)));
    assert!(matches!(resolve_uuid_prefix("1234567g", &[A]), Err(PrefixError::Invalid)));
    assert!(matches!(resolve_uuid_prefix("", &[A]), Err(PrefixError::Invalid)));
}
