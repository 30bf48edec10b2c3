use oxython::tokens::{detect_assignment_kind, is_list_comprehension, AssignmentKind, TokenKind};

#[test]
fn comprehension_needs_top_level_for() {
    assert!(is_list_comprehension(&vec![TokenKind::Identifier, TokenKind::For, TokenKind::Identifier, TokenKind::In, TokenKind::Identifier, TokenKind::RBracket]));
    assert!(!is_list_comprehension(&vec![TokenKind::Integer, TokenKind::Comma, TokenKind::Integer, TokenKind::RBracket]));
    assert!(!is_list_comprehension(&vec![TokenKind::LBracket, TokenKind::For, TokenKind::RBracket, TokenKind::RBracket, TokenKind::For]));
    assert!(is_list_comprehension(&vec![TokenKind::LBracket, TokenKind::Integer, TokenKind::RBracket, TokenKind::For]));
    assert!(!is_list_comprehension(&vec![TokenKind::Invalid, TokenKind::For]));
    assert!(!is_list_comprehension(&vec![]));
}

#[test]
fn assignment_kinds() {
    assert_eq!(detect_assignment_kind(&vec![TokenKind::Identifier, TokenKind::Assign, TokenKind::Integer]), Some(AssignmentKind::Simple));
    assert_eq!(detect_assignment_kind(&vec![TokenKind::Identifier, TokenKind::PlusEqual, TokenKind::Integer]), Some(AssignmentKind::AddAssign));
    assert_eq!(
        detect_assignment_kind(&vec![TokenKind::Identifier, TokenKind::LBracket, TokenKind::Integer, TokenKind::RBracket, TokenKind::StarEqual, TokenKind::Integer]),
        Some(AssignmentKind::MultiplyAssign)
    );
    assert_eq!(
        detect_assignment_kind(&vec![TokenKind::Identifier, TokenKind::LBracket, TokenKind::Assign, TokenKind::RBracket, TokenKind::Assign]),
        Some(AssignmentKind::Simple)
    );
}

#[test]
fn non_assignments() {
    assert_eq!(detect_assignment_kind(&vec![TokenKind::Identifier, TokenKind::LParen, TokenKind::RParen]), None);
    assert_eq!(detect_assignment_kind(&vec![TokenKind::Identifier, TokenKind::Dot, TokenKind::Identifier, TokenKind::Assign]), None);
    assert_eq!(detect_assignment_kind(&vec![TokenKind::Identifier, TokenKind::EqualEqual, TokenKind::Integer]), None);
    assert_eq!(detect_assignment_kind(&vec![TokenKind::Integer, TokenKind::Assign, TokenKind::Integer]), None);
    assert_eq!(detect_assignment_kind(&vec![TokenKind::Identifier, TokenKind::RBracket, TokenKind::Assign]), None);
    assert_eq!(detect_assignment_kind(&vec![TokenKind::Identifier, TokenKind::Colon, TokenKind::Identifier, TokenKind::Assign]), None);
    assert_eq!(detect_assignment_kind(&vec![TokenKind::Identifier, TokenKind::Plus, TokenKind::Identifier, TokenKind::Assign]), None);
    assert_eq!(detect_assignment_kind(&vec![TokenKind::Identifier, TokenKind::Invalid, TokenKind::Assign]), None);
    assert_eq!(detect_assignment_kind(&vec![]), None);
}
