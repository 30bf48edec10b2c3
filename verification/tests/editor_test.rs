use oxython::editor::{EditorAction, LineEditor, ESCAPE};

fn type_text(editor: &mut LineEditor, text: &str) {
    for b in text.bytes() {
        assert_eq!(editor.on_byte(b), EditorAction::Redraw);
    }
}

const UP: Option<(u8, u8)> = Some((b'[', b'A'));
const DOWN: Option<(u8, u8)> = Some((b'[', b'B'));

#[test]
fn enter_submits_trimmed_command() {
    let mut e = LineEditor::new();
    type_text(&mut e, "  hi  ");
    assert_eq!(e.current_text(), "  hi  ");
    assert_eq!(e.on_byte(b'\n'), EditorAction::Submit(Some("hi".to_string())));
    assert_eq!(e.current_text(), "");
    assert_eq!(e.history_len(), 1);
}

#[test]
fn blank_line_submits_nothing() {
    let mut e = LineEditor::new();
    type_text(&mut e, "   ");
    assert_eq!(e.on_byte(b'\r'), EditorAction::Submit(None));
    assert_eq!(e.history_len(), 0);
}

#[test]
fn repeated_command_is_recorded_once() {
    let mut e = LineEditor::new();
    type_text(&mut e, "x");
    e.on_byte(b'\n');
    type_text(&mut e, "x");
    assert_eq!(e.on_byte(b'\n'), EditorAction::Submit(Some("x".to_string())));
    assert_eq!(e.history_len(), 1);
}

#[test]
fn backspace_removes_last_character() {
    let mut e = LineEditor::new();
    type_text(&mut e, "ab");
    assert_eq!(e.on_byte(0x7f), EditorAction::Redraw);
    assert_eq!(e.current_text(), "a");
    assert_eq!(e.on_byte(0x08), EditorAction::Redraw);
    assert_eq!(e.on_byte(0x7f), EditorAction::Nothing);
}

#[test]
fn control_keys() {
    let mut e = LineEditor::new();
    assert_eq!(e.on_byte(ESCAPE), EditorAction::ReadEscape);
    assert_eq!(e.on_byte(3), EditorAction::Exit);
    assert_eq!(e.on_byte(4), EditorAction::Exit);
    assert_eq!(e.on_byte(1), EditorAction::Nothing);
    assert_eq!(e.on_escape(None), EditorAction::Nothing);
    assert_eq!(e.on_escape(Some((b'[', b'C'))), EditorAction::Nothing);
}

#[test]
fn arrows_walk_history_and_restore_input() {
    let mut e = LineEditor::new();
    type_text(&mut e, "one");
    e.on_byte(b'\n');
    type_text(&mut e, "two");
    e.on_byte(b'\n');
    type_text(&mut e, "x");
    assert_eq!(e.on_escape(UP), EditorAction::Redraw);
    assert_eq!(e.current_text(), "two");
    e.on_escape(UP);
    assert_eq!(e.current_text(), "one");
    e.on_escape(UP);
    assert_eq!(e.current_text(), "one");
    assert_eq!(e.on_escape(DOWN), EditorAction::Redraw);
    assert_eq!(e.current_text(), "two");
    e.on_escape(DOWN);
    assert_eq!(e.current_text(), "x");
    assert_eq!(e.on_escape(DOWN), EditorAction::Nothing);
}

#[test]
fn up_with_empty_history_does_nothing() {
    let mut e = LineEditor::new();
    type_text(&mut e, "q");
    assert_eq!(e.on_escape(UP), EditorAction::Nothing);
    assert_eq!(e.current_text(), "q");
}
