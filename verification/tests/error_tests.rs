use script_asm::{asm_err, ParseAsmErrorKind};

#[test]
fn error_carries_position_and_kind() {
    let e = asm_err((2, 1), ParseAsmErrorKind::InvalidHex);
    assert_eq!(e.position, (2, 1));
    assert_eq!(e.kind, ParseAsmErrorKind::InvalidHex);
}

#[test]
fn error_accepts_arbitrary_positions() {
    let e = asm_err((0, 0), ParseAsmErrorKind::UnexpectedEof);
    assert_eq!(e.position, (0, 0));
    assert_eq!(e.kind, ParseAsmErrorKind::UnexpectedEof);

    let e = asm_err((usize::MAX, 7), ParseAsmErrorKind::NonMinimalBytePush);
    assert_eq!(e.position, (usize::MAX, 7));
    assert_eq!(e.kind, ParseAsmErrorKind::NonMinimalBytePush);
}

#[test]
fn error_equality_and_clone() {
    let a = asm_err((3, 4), ParseAsmErrorKind::UnknownInstruction);
    let b = a.clone();
    assert_eq!(a, b);

    let c = asm_err((3, 4), ParseAsmErrorKind::PushExceedsMaxSize);
    assert_ne!(a, c);
    let d = asm_err((3, 5), ParseAsmErrorKind::UnknownInstruction);
    assert_ne!(a, d);
}
