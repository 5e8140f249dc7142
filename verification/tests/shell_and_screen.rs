use null_os::file_system::{FsError, DISK_SIZE};
use null_os::inode::InodeType;
use null_os::mem_disk::MemDisk;
use null_os::shell::{
    parse_command, parse_u64, sleep_millis, split_spaces_of, trim, AddUserOutcome, CatOutcome, Command, DelUserStep, FileStep,
    LsOutcome, MakeOutcome, Shell, User,
};
use null_os::vga_buffer::{Color, ColorCode, Writer};

fn args(v: &[&str]) -> Vec<String> {
    v.iter().map(|s| s.to_string()).collect()
}

fn shell() -> Shell<MemDisk> {
    Shell::new(MemDisk::new(DISK_SIZE), |_| {}).unwrap()
}

#[test]
fn command_lines() {
    assert_eq!(trim("  ls /a \n"), "ls /a");
    assert_eq!(split_spaces_of("a  b"), args(&["a", "", "b"]));
    let (c, a) = parse_command("  mkdir  docs ");
    assert_eq!(c, Command::Mkdir);
    assert_eq!(a, args(&["", "docs"]));
    assert_eq!(parse_command("cls").0, Command::Clear);
    assert_eq!(parse_command("clear").0, Command::Clear);
    assert_eq!(parse_command("   ").0, Command::Empty);
    assert_eq!(parse_command("frobnicate x").0, Command::Unsupported);
    assert_eq!(parse_command("lsusers").0, Command::LsUsers);
    assert_eq!(parse_command("logout").1.len(), 0);
}

#[test]
fn numbers_for_sleep() {
    assert_eq!(parse_u64("42"), Some(42));
    assert_eq!(parse_u64("+7"), Some(7));
    assert_eq!(parse_u64("007"), Some(7));
    assert_eq!(parse_u64("18446744073709551615"), Some(u64::MAX));
    assert_eq!(parse_u64("18446744073709551616"), None);
    assert_eq!(parse_u64(""), None);
    assert_eq!(parse_u64("+"), None);
    assert_eq!(parse_u64("-1"), None);
    assert_eq!(parse_u64("1x"), None);
    assert_eq!(sleep_millis("3"), Some(3000));
    assert_eq!(sleep_millis("abc"), Some(0));
    assert_eq!(sleep_millis("18446744073709551"), Some(18446744073709551000));
    assert_eq!(sleep_millis("18446744073709552"), None);
}

#[test]
fn users() {
    let mut sh = shell();
    assert_eq!(User::new("root", "pw").username(), "root");
    assert_eq!(sh.usernames(), args(&["root"]));
    assert_eq!(sh.add_user(&args(&["bob"])), AddUserOutcome::Usage);
    assert_eq!(sh.add_user(&args(&["bob", "pw"])), AddUserOutcome::Created);
    assert_eq!(sh.add_user(&args(&["bob", "other"])), AddUserOutcome::AlreadyExists);
    assert_eq!(sh.usernames(), args(&["root", "bob"]));
    assert!(!sh.login("bob", "wrong"));
    assert!(sh.login("bob", "pw"));
    assert_eq!(sh.current_index(), 1);
    assert_eq!(sh.delete_user_step(&args(&["root"])), DelUserStep::CannotDeleteRoot);
    assert_eq!(sh.delete_user_step(&args(&["bob"])), DelUserStep::CannotDeleteYourself);
    assert!(sh.login("root", "root"));
    assert_eq!(sh.delete_user_step(&args(&["eve"])), DelUserStep::NoSuchUser);
    assert_eq!(sh.delete_user_step(&args(&[])), DelUserStep::Usage);
    assert_eq!(sh.delete_user_step(&args(&["bob"])), DelUserStep::AskRootPassword(1));
    assert!(!sh.delete_user(1, "nope"));
    assert_eq!(sh.usernames(), args(&["root", "bob"]));
    assert!(sh.delete_user(1, "root"));
    assert_eq!(sh.usernames(), args(&["root"]));
    assert!(!sh.login("bob", "pw"));
    assert_eq!(sh.add_user(&args(&["carol", "c"])), AddUserOutcome::Created);
    assert!(sh.login("carol", "c"));
    assert_eq!(sh.current_index(), 1);
}

#[test]
fn file_commands() {
    let mut sh = shell();
    match sh.ls(&args(&[])).unwrap() {
        LsOutcome::Listing(names) => assert!(names.is_empty()),
        _ => panic!("root should list"),
    }
    assert!(matches!(sh.make_entry(&args(&["docs"]), true).unwrap(), MakeOutcome::Created(1)));
    assert!(matches!(sh.make_entry(&args(&["docs"]), true).unwrap(), MakeOutcome::AlreadyExists));
    assert!(matches!(sh.make_entry(&args(&["docs/todo"]), false).unwrap(), MakeOutcome::Created(2)));
    assert!(matches!(sh.make_entry(&args(&["missing/x"]), false).unwrap(), MakeOutcome::NotADir(_)));
    assert!(matches!(sh.make_entry(&args(&[]), false).unwrap(), MakeOutcome::Usage));
    match sh.ls(&args(&["docs"])).unwrap() {
        LsOutcome::Listing(names) => assert_eq!(names, args(&["todo"])),
        _ => panic!("docs should list"),
    }
    assert!(matches!(sh.ls(&args(&["docs/todo"])).unwrap(), LsOutcome::NotADir(_)));
    assert!(matches!(sh.ls(&args(&["a", "b"])).unwrap(), LsOutcome::Usage));
    assert_eq!(sh.edit_step(&args(&["docs"])), Ok(FileStep::NotAFile));
    assert_eq!(sh.edit_step(&args(&["docs/todo"])), Ok(FileStep::Ready));
    assert_eq!(sh.edit_write("docs/todo", b"buy milk".to_vec()), Ok(()));
    match sh.cat(&args(&["docs/todo"])).unwrap() {
        CatOutcome::Content(c) => assert_eq!(c, b"buy milk".to_vec()),
        _ => panic!("cat should show the file"),
    }
    assert!(matches!(sh.cat(&args(&["docs"])).unwrap(), CatOutcome::NotAFile));
    assert_eq!(sh.rm(&args(&["docs"])), Ok(FileStep::NotAFile));
    assert_eq!(sh.rm(&args(&["docs/todo"])), Ok(FileStep::Ready));
    assert!(matches!(sh.cat(&args(&["docs/todo"])).unwrap(), CatOutcome::NotAFile));
    assert_eq!(sh.edit_step(&args(&["docs/todo"])), Ok(FileStep::NotAFile));
    match sh.ls(&args(&["docs"])).unwrap() {
        LsOutcome::Listing(names) => assert!(names.is_empty()),
        _ => panic!("docs should list"),
    }
    assert!(matches!(sh.ls(&args(&["/docs"])), Err(FsError::EndlessPath)));
}

#[test]
fn screen_writer() {
    let code = ColorCode::new(Color::LightGray, Color::Black);
    assert_eq!(code.0, 0x07);
    assert_eq!(ColorCode::new(Color::White, Color::Blue).0, 0x1F);
    let mut w = Writer::new(code);
    w.set_boundery();
    w.write_str("hi\tx");
    assert_eq!(w.char_at(0, 0).ascii_character, b'h');
    assert_eq!(w.char_at(0, 1).ascii_character, b'i');
    assert_eq!(w.char_at(0, 5).ascii_character, b' ');
    assert_eq!(w.char_at(0, 6).ascii_character, b'x');
    assert_eq!(w.cursor_position(), 7);
    w.write_byte(0x08);
    assert_eq!(w.cursor_position(), 6);
    assert_eq!(w.char_at(0, 6).ascii_character, b' ');
    for _ in 0..6 {
        w.write_byte(0x08);
    }
    // the boundary stops the deletion
    w.write_byte(0x08);
    assert_eq!(w.cursor_position(), 0);
    w.write_byte(b'\n');
    assert_eq!(w.cursor_position(), 80);
}

#[test]
fn screen_wraps_and_scrolls() {
    let mut w = Writer::new(ColorCode::new(Color::Green, Color::Black));
    for _ in 0..81 {
        w.write_byte(b'a');
    }
    assert_eq!(w.cursor_position(), 81);
    assert_eq!(w.char_at(1, 0).ascii_character, b'a');
    for _ in 0..23 {
        w.write_byte(b'\n');
    }
    assert_eq!(w.cursor_position(), 24 * 80);
    w.write_byte(b'z');
    w.write_byte(b'\n');
    // the screen scrolled: the first row is gone, the 'z' row moved up
    assert_eq!(w.cursor_position(), 24 * 80);
    assert_eq!(w.char_at(0, 0).ascii_character, b'a');
    assert_eq!(w.char_at(23, 0).ascii_character, b'z');
    assert_eq!(w.char_at(24, 0).ascii_character, 0);
    w.clear_screen();
    assert_eq!(w.cursor_position(), 0);
    assert_eq!(w.char_at(0, 0).ascii_character, 0);
}

#[test]
fn screen_clear_through_shell() {
    let sh = shell();
    let mut w = Writer::new(ColorCode::new(Color::Green, Color::Black));
    w.write_str("abc");
    sh.clear(&mut w);
    assert_eq!(w.cursor_position(), 0);
    assert_eq!(w.char_at(0, 1).ascii_character, 0);
}

#[test]
fn inode_type_of_new_shell_root() {
    let mut sh = shell();
    assert_eq!(sh.edit_step(&args(&["/"])), Ok(FileStep::NotAFile));
    let _ = InodeType::Dir;
}

#[test]
fn rm_touches_only_its_directory() {
    let mut sh = shell();
    assert!(matches!(sh.make_entry(&args(&["a"]), true).unwrap(), MakeOutcome::Created(1)));
    assert!(matches!(sh.make_entry(&args(&["b"]), true).unwrap(), MakeOutcome::Created(2)));
    assert!(matches!(sh.make_entry(&args(&["a/x"]), false).unwrap(), MakeOutcome::Created(3)));
    assert!(matches!(sh.make_entry(&args(&["a/z"]), false).unwrap(), MakeOutcome::Created(4)));
    assert!(matches!(sh.make_entry(&args(&["b/y"]), false).unwrap(), MakeOutcome::Created(5)));
    assert_eq!(sh.edit_write("b/y", b"kept".to_vec()), Ok(()));
    assert_eq!(sh.edit_write("a/x", b"gone".to_vec()), Ok(()));
    assert_eq!(sh.rm(&args(&["a/x"])), Ok(FileStep::Ready));
    match sh.ls(&args(&["a"])).unwrap() {
        LsOutcome::Listing(names) => assert_eq!(names, args(&["z"])),
        _ => panic!("a should list"),
    }
    match sh.ls(&args(&["b"])).unwrap() {
        LsOutcome::Listing(names) => assert_eq!(names, args(&["y"])),
        _ => panic!("b should list"),
    }
    match sh.cat(&args(&["b/y"])).unwrap() {
        CatOutcome::Content(c) => assert_eq!(c, b"kept".to_vec()),
        _ => panic!("cat should show the file"),
    }
    assert_eq!(sh.rm(&args(&["a/x"])), Ok(FileStep::NotAFile));
}
