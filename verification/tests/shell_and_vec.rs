use xmodem::shell::{echo_line, edit_byte, Command, CommandError, EditAction};
use xmodem::stack_vec::StackVec;

fn arg_buf(n: usize) -> Vec<Vec<u8>> {
    let mut v = Vec::new();
    for _ in 0..n {
        v.push(Vec::new());
    }
    v
}

#[test]
fn parse_splits_on_spaces() {
    let cmd = Command::parse(b"echo hello  world ", arg_buf(8)).unwrap();
    assert_eq!(cmd.arg_count(), 3);
    assert_eq!(cmd.path().as_slice(), b"echo");
    assert_eq!(cmd.arg(1).as_slice(), b"hello");
    assert_eq!(cmd.arg(2).as_slice(), b"world");
    assert!(cmd.is_named(b"echo"));
    assert!(!cmd.is_named(b"exit"));
}

#[test]
fn parse_empty_line_is_empty_error() {
    assert!(matches!(
        Command::parse(b"", arg_buf(4)),
        Err(CommandError::Empty)
    ));
    assert!(matches!(
        Command::parse(b"   ", arg_buf(4)),
        Err(CommandError::Empty)
    ));
}

#[test]
fn parse_overflow_is_too_many_args() {
    assert!(matches!(
        Command::parse(b"a b c", arg_buf(2)),
        Err(CommandError::TooManyArgs)
    ));
    assert!(Command::parse(b"a b", arg_buf(2)).is_ok());
}

#[test]
fn echo_line_joins_arguments_with_single_spaces() {
    let cmd = Command::parse(b"echo one  two   three", arg_buf(8)).unwrap();
    assert_eq!(echo_line(&cmd), b"one two three".to_vec());
    let bare = Command::parse(b"echo", arg_buf(8)).unwrap();
    assert_eq!(echo_line(&bare), Vec::<u8>::new());
}

#[test]
fn edit_byte_stores_erases_and_ends_lines() {
    let mut line = StackVec::new(vec![0u8; 4]);
    assert!(matches!(edit_byte(&mut line, b'h'), EditAction::Stored));
    assert!(matches!(edit_byte(&mut line, b'i'), EditAction::Stored));
    assert_eq!(line.as_slice(), b"hi");
    assert!(matches!(edit_byte(&mut line, 8), EditAction::Erased));
    assert_eq!(line.as_slice(), b"h");
    assert!(matches!(edit_byte(&mut line, 127), EditAction::Erased));
    assert!(matches!(edit_byte(&mut line, 8), EditAction::NoOp));
    assert!(line.is_empty());
    assert!(matches!(edit_byte(&mut line, b'\n'), EditAction::LineDone));
    for b in [b'a', b'b', b'c', b'd'] {
        assert!(matches!(edit_byte(&mut line, b), EditAction::Stored));
    }
    assert!(matches!(edit_byte(&mut line, b'e'), EditAction::Full));
    assert_eq!(line.as_slice(), b"abcd");
}

#[test]
fn stack_vec_push_pop_and_capacity() {
    let mut v = StackVec::new(vec![0u32; 3]);
    assert_eq!(v.capacity(), 3);
    assert!(v.is_empty());
    assert!(!v.is_full());
    assert_eq!(v.push(10), Ok(()));
    assert_eq!(v.push(20), Ok(()));
    assert_eq!(v.push(30), Ok(()));
    assert!(v.is_full());
    assert_eq!(v.push(40), Err(()));
    assert_eq!(v.len(), 3);
    assert_eq!(*v.get(1), 20);
    assert_eq!(v.pop(), Some(30));
    assert_eq!(v.pop(), Some(20));
    assert_eq!(v.pop(), Some(10));
    assert_eq!(v.pop(), None);
    assert_eq!(v.capacity(), 3);
}

#[test]
fn stack_vec_with_len_counts_prefix_as_pushed() {
    let mut v = StackVec::with_len(vec![7u8, 8, 9, 0], 3);
    assert_eq!(v.len(), 3);
    assert_eq!(v.as_slice(), &[7, 8, 9]);
    assert_eq!(v.pop(), Some(9));
    assert_eq!(v.len(), 2);
}

#[test]
fn stack_vec_truncate_keeps_prefix() {
    let mut v = StackVec::with_len(vec![1u8, 2, 3, 4], 4);
    v.truncate(6);
    assert_eq!(v.len(), 4);
    v.truncate(2);
    assert_eq!(v.as_slice(), &[1, 2]);
    assert_eq!(v.capacity(), 4);
}

#[test]
fn stack_vec_into_slice_returns_live_elements() {
    let mut v = StackVec::new(vec![0u8; 8]);
    v.push(5).unwrap();
    v.push(6).unwrap();
    assert_eq!(v.into_slice(), vec![5, 6]);
}
