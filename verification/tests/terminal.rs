use monarch::terminal::{
    edit_line, parse_command, shell_action, shell_greeting, shell_prompt, LineEdit, ShellAction, ShellCommand, Terminal, BLACK, GREEN,
};

const BG: u32 = 0x1234_5678;

fn term(width: usize, height: usize, scale: usize) -> Terminal {
    Terminal::new(vec![BG; width * height], width, height, width * 4, scale)
}

/// Width of the terminals that `px` reads.
const W: usize = 64;

fn px(t: &Terminal, x: usize, y: usize) -> u32 {
    t.framebuffer()[y * W + x]
}

#[test]
fn new_terminal_starts_at_the_origin() {
    let t = term(64, 64, 1);
    assert_eq!(t.cursor(), (0, 0));
    assert!(!t.shift());
    assert!(t.framebuffer().iter().all(|&p| p == BG));
}

#[test]
fn printing_a_letter_draws_its_glyph_and_advances() {
    let mut t = term(64, 64, 1);
    t.print_char('A');
    assert_eq!(t.cursor(), (8, 0));
    // Row 0 of 'A' is 0x0C: bits 2 and 3.
    assert_eq!(px(&t, 2, 0), GREEN);
    assert_eq!(px(&t, 3, 0), GREEN);
    assert_eq!(px(&t, 1, 0), BG);
    assert_eq!(px(&t, 4, 0), BG);
    // Row 7 of 'A' is empty.
    assert_eq!(px(&t, 2, 7), BG);
    // Nothing outside the cell changed.
    assert_eq!(px(&t, 8, 0), BG);
}

#[test]
fn glyph_bits_scale_to_squares() {
    let mut t = term(64, 64, 2);
    t.print_char('A');
    assert_eq!(t.cursor(), (16, 0));
    for (x, y) in [(4, 0), (5, 0), (6, 1), (7, 1)] {
        assert_eq!(px(&t, x, y), GREEN);
    }
    assert_eq!(px(&t, 3, 0), BG);
    assert_eq!(px(&t, 8, 0), BG);
}

#[test]
fn space_draws_nothing() {
    let mut t = term(64, 64, 1);
    t.print_char(' ');
    assert_eq!(t.cursor(), (8, 0));
    assert!(t.framebuffer().iter().all(|&p| p == BG));
}

#[test]
fn non_ascii_advances_without_drawing() {
    let mut t = term(64, 64, 1);
    t.print_char('é');
    assert_eq!(t.cursor(), (8, 0));
    assert!(t.framebuffer().iter().all(|&p| p == BG));
}

#[test]
fn newline_moves_to_the_next_line() {
    let mut t = term(64, 64, 1);
    t.print_char('x');
    t.print_char('\n');
    assert_eq!(t.cursor(), (0, 8));
}

#[test]
fn cursor_wraps_at_the_right_edge() {
    let mut t = term(16, 16, 1);
    t.print_char('a');
    assert_eq!(t.cursor(), (8, 0));
    t.print_char('b');
    assert_eq!(t.cursor(), (0, 8));
}

#[test]
fn running_off_the_bottom_scrolls_up_a_line() {
    let mut t = term(16, 16, 1);
    t.print("abc");
    assert_eq!(t.cursor(), (8, 8));
    t.print_char('d');
    // The second line moved up, the bottom line is blank, and the cursor is on it.
    assert_eq!(t.cursor(), (0, 8));
    let mut fresh = term(16, 16, 1);
    fresh.print("cd");
    for y in 0..16 {
        for x in 0..16 {
            let got = t.framebuffer()[y * 16 + x];
            if y < 8 {
                assert_eq!(got, fresh.framebuffer()[y * 16 + x]);
            } else {
                assert_eq!(got, BLACK);
            }
        }
    }
}

#[test]
fn a_screen_lower_than_a_cell_is_cleared() {
    let mut t = Terminal::new(vec![BG; 4 * 4], 4, 4, 16, 1);
    t.print_char('a');
    assert_eq!(t.cursor(), (0, 0));
    assert!(t.framebuffer().iter().all(|&p| p == BLACK));
}

#[test]
fn backspace_erases_the_previous_cell() {
    let mut t = term(64, 64, 1);
    t.print_char('A');
    t.print_char('\x08');
    assert_eq!(t.cursor(), (0, 0));
    for y in 0..8 {
        for x in 0..8 {
            assert_eq!(px(&t, x, y), BLACK);
        }
    }
    assert_eq!(px(&t, 8, 0), BG);
}

#[test]
fn backspace_at_line_start_goes_to_the_previous_line_end() {
    let mut t = term(64, 64, 1);
    t.print_char('\n');
    t.print_char('\x08');
    assert_eq!(t.cursor(), (56, 0));
    assert!(t.framebuffer().iter().all(|&p| p == BG));
}

#[test]
fn backspace_at_the_origin_does_nothing() {
    let mut t = term(64, 64, 1);
    t.print_char('\x08');
    assert_eq!(t.cursor(), (0, 0));
}

#[test]
fn clear_blanks_the_screen() {
    let mut t = term(32, 32, 1);
    t.print("hi");
    t.clear();
    assert_eq!(t.cursor(), (0, 0));
    assert!(t.framebuffer().iter().all(|&p| p == BLACK));
}

#[test]
fn print_is_print_char_per_character() {
    let mut a = term(32, 32, 1);
    let mut b = term(32, 32, 1);
    a.print("ok\nyes");
    for c in "ok\nyes".chars() {
        b.print_char(c);
    }
    assert_eq!(a.cursor(), (24, 8));
    assert_eq!(a.cursor(), b.cursor());
    assert_eq!(a.framebuffer(), b.framebuffer());
}

#[test]
fn draw_glyph_clips_to_the_screen() {
    let mut t = Terminal::new(vec![BG; 4 * 4], 4, 4, 16, 1);
    t.draw_glyph([0xFF; 8]);
    assert!(t.framebuffer().iter().all(|&p| p == GREEN));
}

#[test]
fn scancodes_decode_to_characters() {
    let mut t = term(8, 8, 1);
    assert_eq!(t.decode_scancode(0x1E), Some('a'));
    // A key held down repeats its character.
    assert_eq!(t.decode_scancode(0x1E), Some('a'));
    assert_eq!(t.decode_scancode(0x02), Some('1'));
    assert_eq!(t.decode_scancode(0x1C), Some('\n'));
    assert_eq!(t.decode_scancode(0x0E), Some('\x08'));
    assert_eq!(t.decode_scancode(0x39), Some(' '));
}

#[test]
fn shift_selects_the_shifted_table() {
    let mut t = term(8, 8, 1);
    assert_eq!(t.decode_scancode(0x2A), None);
    assert!(t.shift());
    assert_eq!(t.decode_scancode(0x1E), Some('A'));
    assert_eq!(t.decode_scancode(0x02), Some('!'));
    assert_eq!(t.decode_scancode(0xAA), None);
    assert!(!t.shift());
    assert_eq!(t.decode_scancode(0x1E), Some('a'));
    assert_eq!(t.decode_scancode(0x36), None);
    assert!(t.shift());
    assert_eq!(t.decode_scancode(0xB6), None);
    assert!(!t.shift());
}

#[test]
fn keys_without_characters_yield_nothing() {
    let mut t = term(8, 8, 1);
    // Control, a break code, and a code past the table.
    assert_eq!(t.decode_scancode(0x1D), None);
    assert_eq!(t.decode_scancode(0x9E), None);
    assert_eq!(t.decode_scancode(0x7A), None);
}

#[test]
fn line_editing() {
    let mut line: Vec<char> = Vec::new();
    assert_eq!(edit_line(&mut line, '\x08'), LineEdit::Ignore);
    assert_eq!(edit_line(&mut line, 'h'), LineEdit::Insert);
    assert_eq!(edit_line(&mut line, 'i'), LineEdit::Insert);
    assert_eq!(line, vec!['h', 'i']);
    assert_eq!(edit_line(&mut line, '\x08'), LineEdit::Erase);
    assert_eq!(line, vec!['h']);
    assert_eq!(edit_line(&mut line, '\n'), LineEdit::Submit);
    assert_eq!(line, vec!['h']);
}

fn parse(s: &str) -> ShellCommand {
    let chars: Vec<char> = s.chars().collect();
    parse_command(&chars)
}

#[test]
fn shell_commands_parse() {
    assert_eq!(parse("help"), ShellCommand::Help);
    assert_eq!(parse("clear"), ShellCommand::Clear);
    assert_eq!(parse("reboot"), ShellCommand::Reboot);
    assert_eq!(parse("echo hello world"), ShellCommand::Echo("hello world".chars().collect()));
    assert_eq!(parse("echo "), ShellCommand::Echo(vec![]));
    assert_eq!(parse(""), ShellCommand::Empty);
}

#[test]
fn near_misses_are_unknown() {
    assert_eq!(parse("echo"), ShellCommand::Unknown);
    assert_eq!(parse("help "), ShellCommand::Unknown);
    assert_eq!(parse("Help"), ShellCommand::Unknown);
    assert_eq!(parse("cleared"), ShellCommand::Unknown);
    assert_eq!(parse(" "), ShellCommand::Unknown);
}

fn chars(s: &str) -> Vec<char> {
    s.chars().collect()
}

#[test]
fn shell_actions() {
    let help = shell_action(&ShellCommand::Help, &chars("help"));
    assert_eq!(
        help,
        ShellAction::Print(chars(
            "Available commands:\n  help  - Show this help message\n  echo  - Echo back input\n  clear - Clear the screen\n  reboot- Reboot the system\n"
        ))
    );
    let line = chars("echo hi there");
    assert_eq!(
        shell_action(&parse_command(&line), &line),
        ShellAction::Print(chars("hi there\n"))
    );
    assert_eq!(shell_action(&ShellCommand::Clear, &chars("clear")), ShellAction::Clear);
    assert_eq!(
        shell_action(&ShellCommand::Reboot, &chars("reboot")),
        ShellAction::Reboot(chars("Rebooting...\n"))
    );
    assert_eq!(
        shell_action(&ShellCommand::Unknown, &chars("ls -l")),
        ShellAction::Print(chars("Unknown command: ls -l\n"))
    );
    assert_eq!(shell_action(&ShellCommand::Empty, &[]), ShellAction::Nothing);
}

#[test]
fn printing_fits_on_ordinary_terminals() {
    let t = term(64, 64, 1);
    assert!(t.can_print("hello\nworld\x08"));
    assert!(t.can_print_char('x'));
    assert!(t.can_print(""));
}

#[test]
fn printing_that_would_overflow_is_detected() {
    let huge = Terminal::new(vec![], 0, 0, 0, usize::MAX / 8);
    assert!(!huge.can_print_char('a'));
    assert!(!huge.can_print("a"));
    assert!(huge.can_print(""));
    // A backspace that would wrap to a line narrower than a cell.
    let mut narrow = Terminal::new(vec![0; 4 * 64], 4, 64, 16, 1);
    narrow.print_char('\n');
    assert!(!narrow.can_print_char('\x08'));
    assert!(!narrow.can_print("\x08"));
}

#[test]
fn printing_in_pieces_is_printing_the_whole() {
    let mut a = term(64, 64, 1);
    let mut b = term(64, 64, 1);
    a.print("ab\n");
    a.print("c");
    b.print("ab\nc");
    assert_eq!(a.cursor(), b.cursor());
    assert_eq!(a.framebuffer(), b.framebuffer());
}

#[test]
fn shell_greeting_and_prompt() {
    assert_eq!(shell_greeting(), chars("Welcome to MonarchOS!\n"));
    assert_eq!(shell_prompt(), chars("> "));
}
